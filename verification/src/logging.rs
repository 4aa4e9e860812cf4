//! Which kinds of messages a run prints.
use vstd::prelude::*;

verus! {

/// The log levels of a run.
#[derive(Clone, Copy, Debug, PartialEq, Eq, Structural)]
pub struct Context {
    pub loglevel_info: bool,
    pub loglevel_log: bool,
    pub loglevel_warn: bool,
    pub loglevel_debug: bool,
    pub loglevel_dump: bool,
    pub loglevel_blif: bool,
    pub loglevel_route: bool,
    pub loglevel_place: bool,
    pub loglevel_bitstream: bool,
    pub loglevel_timing: bool,
}

/// A run starts with every kind of message switched off.
impl Default for Context {
    fn default() -> (r: Self)
        ensures
            !r.loglevel_info && !r.loglevel_log && !r.loglevel_warn && !r.loglevel_debug && !r.loglevel_dump,
            !r.loglevel_blif && !r.loglevel_route && !r.loglevel_place && !r.loglevel_bitstream && !r.loglevel_timing,
    {
        Context {
            loglevel_info: false,
            loglevel_log: false,
            loglevel_warn: false,
            loglevel_debug: false,
            loglevel_dump: false,
            loglevel_blif: false,
            loglevel_route: false,
            loglevel_place: false,
            loglevel_bitstream: false,
            loglevel_timing: false,
        }
    }
}

/// Whether one of the debug options names `a` or `b`.
pub open spec fn has_option(options: Seq<String>, a: Seq<char>, b: Seq<char>) -> bool {
    exists|i: int| 0 <= i < options.len() && (options[i]@ == a || options[i]@ == b)
}

/// The log levels that `verbose` repetitions of the verbosity flag and the
/// debug options `options`: one repetition turns on information, two also
/// debugging, three also data dumps (more turn on nothing); the options
/// `b`/`blif`, `p`/`place`, `r`/`route`, `s`/`stream` and `cp`/`crit_path`
/// turn on the messages of the netlist, placement, routing, bitstream and
/// timing steps. Other options change nothing.
pub open spec fn spec_log_levels(verbose: u64, options: Seq<String>) -> Context {
    Context {
        loglevel_info: 1 <= verbose <= 3,
        loglevel_log: false,
        loglevel_warn: false,
        loglevel_debug: 2 <= verbose <= 3,
        loglevel_dump: verbose == 3,
        loglevel_blif: has_option(options, "b"@, "blif"@),
        loglevel_route: has_option(options, "r"@, "route"@),
        loglevel_place: has_option(options, "p"@, "place"@),
        loglevel_bitstream: has_option(options, "s"@, "stream"@),
        loglevel_timing: has_option(options, "cp"@, "crit_path"@),
    }
}

/// Whether `s` is `a` or `b`.
fn is_either(s: &String, a: &str, b: &str) -> (r: bool)
    ensures
        r == (s@ == a@ || s@ == b@),
{
    let a = a.to_owned();
    let b = b.to_owned();
    *s == a || *s == b
}

/// The log levels that the arguments of a run ask for (see `spec_log_levels`).
fn requested_log_levels(verbose: u64, options: &Vec<String>) -> (r: Context)
    ensures
        r == spec_log_levels(verbose, options@),
{
    let mut c = Context {
        loglevel_info: 1 <= verbose && verbose <= 3,
        loglevel_log: false,
        loglevel_warn: false,
        loglevel_debug: 2 <= verbose && verbose <= 3,
        loglevel_dump: verbose == 3,
        loglevel_blif: false,
        loglevel_route: false,
        loglevel_place: false,
        loglevel_bitstream: false,
        loglevel_timing: false,
    };
    let mut i: usize = 0;
    while i < options.len()
        invariant
            i <= options@.len(),
            c.loglevel_info == (1 <= verbose <= 3),
            !c.loglevel_log,
            !c.loglevel_warn,
            c.loglevel_debug == (2 <= verbose <= 3),
            c.loglevel_dump == (verbose == 3),
            c.loglevel_blif == has_option(options@.subrange(0, i as int), "b"@, "blif"@),
            c.loglevel_route == has_option(options@.subrange(0, i as int), "r"@, "route"@),
            c.loglevel_place == has_option(options@.subrange(0, i as int), "p"@, "place"@),
            c.loglevel_bitstream == has_option(options@.subrange(0, i as int), "s"@, "stream"@),
            c.loglevel_timing == has_option(options@.subrange(0, i as int), "cp"@, "crit_path"@),
        decreases options@.len() - i,
    {
        let o = &options[i];
        let ghost pre = options@.subrange(0, i as int);
        let ghost post = options@.subrange(0, i + 1);
        assert(post =~= pre.push(*o));
        proof {
            assert forall|a: Seq<char>, b: Seq<char>| has_option(post, a, b) == (has_option(pre, a, b) || o@ == a || o@ == b) by {
                if has_option(post, a, b) && !(o@ == a || o@ == b) {
                    let j = choose|j: int| 0 <= j < post.len() && (post[j]@ == a || post[j]@ == b);
                    assert(pre[j] == post[j]);
                }
                if has_option(pre, a, b) {
                    let j = choose|j: int| 0 <= j < pre.len() && (pre[j]@ == a || pre[j]@ == b);
                    assert(post[j] == pre[j]);
                }
                if o@ == a || o@ == b {
                    assert(post[i as int] == *o);
                }
            }
        }
        if is_either(o, "b", "blif") {
            c.loglevel_blif = true;
        }
        if is_either(o, "r", "route") {
            c.loglevel_route = true;
        }
        if is_either(o, "p", "place") {
            c.loglevel_place = true;
        }
        if is_either(o, "s", "stream") {
            c.loglevel_bitstream = true;
        }
        if is_either(o, "cp", "crit_path") {
            c.loglevel_timing = true;
        }
        i = i + 1;
    }
    assert(options@.subrange(0, options@.len() as int) =~= options@);
    c
}

/// Switches on the log levels that the arguments ask for (see
/// `spec_log_levels`): a level already on stays on, and messages and
/// warnings keep their setting.
pub fn init_logging(ctx: &mut Context, verbose: u64, options: &Vec<String>)
    ensures
        final(ctx).loglevel_info == (old(ctx).loglevel_info || 1 <= verbose <= 3),
        final(ctx).loglevel_debug == (old(ctx).loglevel_debug || 2 <= verbose <= 3),
        final(ctx).loglevel_dump == (old(ctx).loglevel_dump || verbose == 3),
        final(ctx).loglevel_blif == (old(ctx).loglevel_blif || has_option(options@, "b"@, "blif"@)),
        final(ctx).loglevel_place == (old(ctx).loglevel_place || has_option(options@, "p"@, "place"@)),
        final(ctx).loglevel_route == (old(ctx).loglevel_route || has_option(options@, "r"@, "route"@)),
        final(ctx).loglevel_bitstream == (old(ctx).loglevel_bitstream || has_option(options@, "s"@, "stream"@)),
        final(ctx).loglevel_timing == (old(ctx).loglevel_timing || has_option(options@, "cp"@, "crit_path"@)),
        final(ctx).loglevel_log == old(ctx).loglevel_log,
        final(ctx).loglevel_warn == old(ctx).loglevel_warn,
{
    let req = requested_log_levels(verbose, options);
    ctx.loglevel_info = ctx.loglevel_info || req.loglevel_info;
    ctx.loglevel_debug = ctx.loglevel_debug || req.loglevel_debug;
    ctx.loglevel_dump = ctx.loglevel_dump || req.loglevel_dump;
    ctx.loglevel_blif = ctx.loglevel_blif || req.loglevel_blif;
    ctx.loglevel_place = ctx.loglevel_place || req.loglevel_place;
    ctx.loglevel_route = ctx.loglevel_route || req.loglevel_route;
    ctx.loglevel_bitstream = ctx.loglevel_bitstream || req.loglevel_bitstream;
    ctx.loglevel_timing = ctx.loglevel_timing || req.loglevel_timing;
}

} // verus!
