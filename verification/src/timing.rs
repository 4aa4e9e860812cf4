//! Timing analysis: delay event graphs of the routed nets and the critical
//! path delays computed from them.
use vstd::prelude::*;
use crate::config::Config;
use crate::types::{Point, NodeMetaType, Route, RouteNet, Model, Placement, spec_name_at};

verus! {

pub type Delay = u32;
pub type RouteDelay = Delay;
pub type NetName = String;
pub type ModelName = String;

/// Where a routing event happens.
#[derive(Clone, Copy, Debug, PartialEq, Eq, Structural)]
pub struct RouteEvent {
    pub point: Point,
}

/// An event along a route: the signal leaves a latched (synchronous) or an
/// unlatched (asynchronous) source, enters the routing, switches tracks, or
/// arrives at a latched or an unlatched sink.
#[derive(Clone, Copy, Debug, PartialEq, Eq, Structural)]
pub enum RouteEventEnum {
    SyncSourceEvent(RouteEvent),
    AsyncSourceEvent(RouteEvent),
    TrackEntryEvent(RouteEvent),
    TrackSwitchEvent(RouteEvent),
    SyncSinkEvent(RouteEvent),
    AsyncSinkEvent(RouteEvent),
}

impl DeepView for RouteEventEnum {
    type V = RouteEventEnum;

    open spec fn deep_view(&self) -> RouteEventEnum {
        *self
    }
}

/// The location of an event.
pub open spec fn spec_event_point(e: RouteEventEnum) -> Point {
    match e {
        RouteEventEnum::SyncSourceEvent(r) => r.point,
        RouteEventEnum::AsyncSourceEvent(r) => r.point,
        RouteEventEnum::TrackEntryEvent(r) => r.point,
        RouteEventEnum::TrackSwitchEvent(r) => r.point,
        RouteEventEnum::SyncSinkEvent(r) => r.point,
        RouteEventEnum::AsyncSinkEvent(r) => r.point,
    }
}

impl RouteEventEnum {
    /// The location of the event.
    pub fn point(&self) -> (r: Point)
        ensures
            r == spec_event_point(*self),
    {
        match self {
            RouteEventEnum::SyncSourceEvent(r) => r.point,
            RouteEventEnum::AsyncSourceEvent(r) => r.point,
            RouteEventEnum::TrackEntryEvent(r) => r.point,
            RouteEventEnum::TrackSwitchEvent(r) => r.point,
            RouteEventEnum::SyncSinkEvent(r) => r.point,
            RouteEventEnum::AsyncSinkEvent(r) => r.point,
        }
    }
}

/// The events of one route, each with the delay it adds.
pub type RouteDelayEventGraph = Vec<(Delay, RouteEventEnum)>;
/// The routes of one net, each with its total delay.
pub type NetDelayEventGraph = Vec<(RouteDelay, Vec<(Delay, RouteEventEnum)>)>;
/// The nets of one model, by name.
pub type DelayEventGraph = Vec<(NetName, Vec<(RouteDelay, Vec<(Delay, RouteEventEnum)>)>)>;
/// The delay event graphs of all models, by model name.
pub type NamedDelayEventGraphList = Vec<(ModelName, Vec<(NetName, Vec<(RouteDelay, Vec<(Delay, RouteEventEnum)>)>)>)>;

pub type EventSeq = Seq<(u32, RouteEventEnum)>;
pub type NetGraphView = Seq<(u32, EventSeq)>;
pub type ModelGraphView = Seq<(Seq<char>, NetGraphView)>;
pub type GraphListView = Seq<(Seq<char>, ModelGraphView)>;

/// The sum of the delays of a route.
pub open spec fn spec_route_delay(route: EventSeq) -> int
    decreases route.len(),
{
    if route.len() == 0 {
        0
    } else {
        spec_route_delay(route.drop_last()) + route.last().0
    }
}

/// The names of the latched blocks of a model.
pub open spec fn spec_latches(model: Model) -> Seq<Seq<char>> {
    model.latched@.map_values(|s: String| s@)
}

/// The first event of the source: a pad or a latched logic element is a
/// synchronous source, any other logic element an asynchronous one. `None`
/// when no block is placed at the source.
pub open spec fn spec_source_entry(net: RouteNet, latches: Seq<Seq<char>>, place: Seq<(String, Point)>, cfg: Config) -> Option<(u32, RouteEventEnum)> {
    match spec_name_at(place, net.src.0) {
        None => None,
        Some(name) => {
            let ev = RouteEvent { point: net.src.0 };
            if net.src.1 == NodeMetaType::Pad {
                Some((cfg.fpga_delay_pad_exit, RouteEventEnum::SyncSourceEvent(ev)))
            } else if latches.contains(name) {
                Some((cfg.fpga_delay_ble_exit, RouteEventEnum::SyncSourceEvent(ev)))
            } else {
                Some((cfg.fpga_delay_ble_exit, RouteEventEnum::AsyncSourceEvent(ev)))
            }
        },
    }
}

/// The last event of a branch: a pad or a latched logic element is a
/// synchronous sink, any other logic element an asynchronous one. `None`
/// when the branch has no sink or no block is placed at it.
pub open spec fn spec_sink_entry(branch: Route, latches: Seq<Seq<char>>, place: Seq<(String, Point)>, cfg: Config) -> Option<(u32, RouteEventEnum)> {
    match branch.sink {
        None => None,
        Some(sink) => match spec_name_at(place, sink.0) {
            None => None,
            Some(name) => {
                let ev = RouteEvent { point: sink.0 };
                if sink.1 == NodeMetaType::Pad {
                    Some((cfg.fpga_delay_pad_enter, RouteEventEnum::SyncSinkEvent(ev)))
                } else if latches.contains(name) {
                    Some((cfg.fpga_delay_ble_enter, RouteEventEnum::SyncSinkEvent(ev)))
                } else {
                    Some((cfg.fpga_delay_ble_enter, RouteEventEnum::AsyncSinkEvent(ev)))
                }
            },
        },
    }
}

/// The index of the first event at `p`, from index `i` on.
pub open spec fn spec_first_event_at(route: EventSeq, p: Point, i: int) -> Option<int>
    decreases route.len() - i,
{
    if i < 0 || i >= route.len() {
        None
    } else if spec_event_point(route[i].1) == p {
        Some(i)
    } else {
        spec_first_event_at(route, p, i + 1)
    }
}

/// The earlier route through `p`, from route `k` on, cut after its first
/// event at `p`.
pub open spec fn spec_branch_prefix(prior: NetGraphView, p: Point, k: int) -> Option<EventSeq>
    decreases prior.len() - k,
{
    if k < 0 || k >= prior.len() {
        None
    } else {
        match spec_first_event_at(prior[k].1, p, 0) {
            Some(i) => Some(prior[k].1.subrange(0, i + 1)),
            None => spec_branch_prefix(prior, p, k + 1),
        }
    }
}

/// The events of a branch: it starts at the source (a branch from the
/// output pin) or at the point where it leaves an earlier route of the net,
/// switches track at every further track, and ends at its sink. `None` when
/// the branch has no track, leaves no earlier route, has no placed sink, or
/// its total delay leaves `u32`.
pub open spec fn spec_branch_route(prior: NetGraphView, branch: Route, src: (u32, RouteEventEnum),
    latches: Seq<Seq<char>>, place: Seq<(String, Point)>, cfg: Config) -> Option<EventSeq>
{
    let tracks = branch.tracks@;
    if tracks.len() == 0 {
        None
    } else {
        let seed = if branch.from_opin {
            Some(seq![src, (0u32, RouteEventEnum::TrackEntryEvent(RouteEvent { point: tracks[0].xy }))])
        } else {
            spec_branch_prefix(prior, tracks[0].xy, 0)
        };
        let switches = Seq::new((tracks.len() - 1) as nat, |i: int|
            (cfg.fpga_delay_trackswitch, RouteEventEnum::TrackSwitchEvent(RouteEvent { point: tracks[i + 1].xy })));
        match (seed, spec_sink_entry(branch, latches, place, cfg)) {
            (Some(seed), Some(sink)) => {
                let route = seed + switches + seq![sink];
                if spec_route_delay(route) <= u32::MAX {
                    Some(route)
                } else {
                    None
                }
            },
            _ => None,
        }
    }
}

/// The routes of the first `n` branches of a net, each with its delay.
pub open spec fn spec_net_routes(branches: Seq<Route>, n: int, src: (u32, RouteEventEnum),
    latches: Seq<Seq<char>>, place: Seq<(String, Point)>, cfg: Config) -> Option<NetGraphView>
    decreases n,
{
    if n <= 0 {
        Some(Seq::empty())
    } else {
        match spec_net_routes(branches, n - 1, src, latches, place, cfg) {
            None => None,
            Some(prior) => match spec_branch_route(prior, branches[n - 1], src, latches, place, cfg) {
                None => None,
                Some(route) => Some(prior.push((spec_route_delay(route) as u32, route))),
            },
        }
    }
}

/// The delay event graph of one net.
pub open spec fn spec_net_graph(net: RouteNet, latches: Seq<Seq<char>>, place: Seq<(String, Point)>, cfg: Config) -> Option<NetGraphView> {
    match spec_source_entry(net, latches, place, cfg) {
        None => None,
        Some(src) => spec_net_routes(net.route_tree@, net.route_tree@.len() as int, src, latches, place, cfg),
    }
}

/// The graphs of the first `n` nets, for a model with these latches.
pub open spec fn spec_model_graph(nets: Seq<RouteNet>, n: int, latches: Seq<Seq<char>>, place: Seq<(String, Point)>, cfg: Config) -> Option<ModelGraphView>
    decreases n,
{
    if n <= 0 {
        Some(Seq::empty())
    } else {
        match (spec_model_graph(nets, n - 1, latches, place, cfg), spec_net_graph(nets[n - 1], latches, place, cfg)) {
            (Some(prev), Some(g)) => Some(prev.push((nets[n - 1].name@, g))),
            _ => None,
        }
    }
}

/// The graphs of the first `n` models: every net, once for each model.
pub open spec fn spec_graph_list(models: Seq<Model>, n: int, nets: Seq<RouteNet>, place: Seq<(String, Point)>, cfg: Config) -> Option<GraphListView>
    decreases n,
{
    if n <= 0 {
        Some(Seq::empty())
    } else {
        match (spec_graph_list(models, n - 1, nets, place, cfg),
            spec_model_graph(nets, nets.len() as int, spec_latches(models[n - 1]), place, cfg)) {
            (Some(prev), Some(g)) => Some(prev.push((models[n - 1].name@, g))),
            _ => None,
        }
    }
}

/// The delay event graphs of all models. `None` for inputs on which the
/// construction fails.
pub open spec fn spec_delay_event_graph(models: Seq<Model>, nets: Seq<RouteNet>, place: Seq<(String, Point)>, cfg: Config) -> Option<GraphListView> {
    spec_graph_list(models, models.len() as int, nets, place, cfg)
}

proof fn lemma_events_view(v: Vec<(u32, RouteEventEnum)>)
    ensures
        v.deep_view() == v@,
{
    assert(v.deep_view() =~= v@);
}

proof fn lemma_route_delay_prefix(route: EventSeq, i: int)
    requires
        0 <= i <= route.len(),
    ensures
        spec_route_delay(route.subrange(0, i)) <= spec_route_delay(route),
    decreases route.len() - i,
{
    if i < route.len() {
        lemma_route_delay_prefix(route, i + 1);
        assert(route.subrange(0, i + 1).drop_last() =~= route.subrange(0, i));
    } else {
        assert(route.subrange(0, i) =~= route);
    }
}

/// Whether `name` is one of `names`.
fn contains_name(names: &Vec<String>, name: &String) -> (r: bool)
    ensures
        r == names@.map_values(|s: String| s@).contains(name@),
{
    let ghost m = names@.map_values(|s: String| s@);
    let mut i: usize = 0;
    while i < names.len()
        invariant
            i <= names@.len(),
            m == names@.map_values(|s: String| s@),
            forall|j: int| 0 <= j < i ==> m[j] != name@,
        decreases names@.len() - i,
    {
        if names[i] == *name {
            assert(m[i as int] == name@);
            return true;
        }
        i = i + 1;
    }
    proof {
        if m.contains(name@) {
            let j = choose|j: int| 0 <= j < m.len() && m[j] == name@;
            assert(false);
        }
    }
    false
}

/// The first event of a net's source (see `spec_source_entry`).
fn source_entry(net: &RouteNet, latched: &Vec<String>, place: &Placement, cfg: &Config) -> (r: Option<(u32, RouteEventEnum)>)
    ensures
        r == spec_source_entry(*net, latched@.map_values(|s: String| s@), place.entries@, *cfg),
{
    let source_name = match place.get_name(&net.src.0) {
        Some(n) => n,
        None => {
            return None;
        },
    };
    let ev = RouteEvent { point: net.src.0 };
    if net.src.1 == NodeMetaType::Pad {
        Some((cfg.fpga_delay_pad_exit, RouteEventEnum::SyncSourceEvent(ev)))
    } else if contains_name(latched, source_name) {
        Some((cfg.fpga_delay_ble_exit, RouteEventEnum::SyncSourceEvent(ev)))
    } else {
        Some((cfg.fpga_delay_ble_exit, RouteEventEnum::AsyncSourceEvent(ev)))
    }
}

/// The last event of a branch (see `spec_sink_entry`).
fn sink_entry(branch: &Route, latched: &Vec<String>, place: &Placement, cfg: &Config) -> (r: Option<(u32, RouteEventEnum)>)
    ensures
        r == spec_sink_entry(*branch, latched@.map_values(|s: String| s@), place.entries@, *cfg),
{
    let sink = match &branch.sink {
        Some(s) => s,
        None => {
            return None;
        },
    };
    let sink_name = match place.get_name(&sink.0) {
        Some(n) => n,
        None => {
            return None;
        },
    };
    let ev = RouteEvent { point: sink.0 };
    if sink.1 == NodeMetaType::Pad {
        Some((cfg.fpga_delay_pad_enter, RouteEventEnum::SyncSinkEvent(ev)))
    } else if contains_name(latched, sink_name) {
        Some((cfg.fpga_delay_ble_enter, RouteEventEnum::SyncSinkEvent(ev)))
    } else {
        Some((cfg.fpga_delay_ble_enter, RouteEventEnum::AsyncSinkEvent(ev)))
    }
}

/// The index of the first event of `route` at `p`.
fn first_event_at(route: &Vec<(u32, RouteEventEnum)>, p: &Point) -> (r: Option<usize>)
    ensures
        match r {
            Some(i) => spec_first_event_at(route@, *p, 0) == Some(i as int) && i < route@.len(),
            None => spec_first_event_at(route@, *p, 0) is None,
        },
{
    let mut i: usize = 0;
    while i < route.len()
        invariant
            i <= route@.len(),
            spec_first_event_at(route@, *p, 0) == spec_first_event_at(route@, *p, i as int),
        decreases route@.len() - i,
    {
        if route[i].1.point() == *p {
            return Some(i);
        }
        i = i + 1;
    }
    None
}

/// The earlier route of the net through `p`, cut after its first event at `p`.
fn branch_prefix(prior: &Vec<(u32, Vec<(u32, RouteEventEnum)>)>, p: &Point) -> (r: Option<Vec<(u32, RouteEventEnum)>>)
    ensures
        match r {
            Some(v) => spec_branch_prefix(prior.deep_view(), *p, 0) == Some(v@),
            None => spec_branch_prefix(prior.deep_view(), *p, 0) is None,
        },
{
    let ghost pv = prior.deep_view();
    let mut k: usize = 0;
    while k < prior.len()
        invariant
            k <= prior@.len(),
            pv == prior.deep_view(),
            spec_branch_prefix(pv, *p, 0) == spec_branch_prefix(pv, *p, k as int),
        decreases prior@.len() - k,
    {
        let route = &prior[k].1;
        proof { lemma_events_view(*route); }
        match first_event_at(route, p) {
            Some(i) => {
                let mut v: Vec<(u32, RouteEventEnum)> = Vec::new();
                let mut j: usize = 0;
                while j <= i && j < route.len()
                    invariant
                        i < route@.len(),
                        j <= i + 1,
                        v@ =~= route@.subrange(0, j as int),
                    decreases i + 1 - j,
                {
                    v.push(route[j]);
                    j = j + 1;
                }
                assert(v@ =~= route@.subrange(0, i + 1));
                return Some(v);
            },
            None => {},
        }
        k = k + 1;
    }
    None
}

/// The total delay of a route, `None` when it leaves `u32`.
fn route_delay(route: &Vec<(u32, RouteEventEnum)>) -> (r: Option<u32>)
    ensures
        match r {
            Some(d) => d == spec_route_delay(route@),
            None => spec_route_delay(route@) > u32::MAX,
        },
{
    let mut sum: u32 = 0;
    let mut i: usize = 0;
    assert(route@.subrange(0, 0) =~= Seq::<(u32, RouteEventEnum)>::empty());
    while i < route.len()
        invariant
            i <= route@.len(),
            sum == spec_route_delay(route@.subrange(0, i as int)),
        decreases route@.len() - i,
    {
        assert(route@.subrange(0, i + 1).drop_last() =~= route@.subrange(0, i as int));
        match sum.checked_add(route[i].0) {
            Some(s) => {
                sum = s;
            },
            None => {
                proof { lemma_route_delay_prefix(route@, i + 1); }
                return None;
            },
        }
        i = i + 1;
    }
    assert(route@.subrange(0, i as int) =~= route@);
    Some(sum)
}

/// The events of one branch (see `spec_branch_route`).
fn branch_route(prior: &Vec<(u32, Vec<(u32, RouteEventEnum)>)>, branch: &Route, src: (u32, RouteEventEnum),
    latched: &Vec<String>, place: &Placement, cfg: &Config) -> (r: Option<Vec<(u32, RouteEventEnum)>>)
    ensures
        match r {
            Some(v) => spec_branch_route(prior.deep_view(), *branch, src, latched@.map_values(|s: String| s@), place.entries@, *cfg) == Some(v@),
            None => spec_branch_route(prior.deep_view(), *branch, src, latched@.map_values(|s: String| s@), place.entries@, *cfg) is None,
        },
{
    let ghost latches = latched@.map_values(|s: String| s@);
    let tracks = &branch.tracks;
    if tracks.len() == 0 {
        return None;
    }
    let mut route: Vec<(u32, RouteEventEnum)> = if branch.from_opin {
        let mut v: Vec<(u32, RouteEventEnum)> = Vec::new();
        v.push(src);
        v.push((0u32, RouteEventEnum::TrackEntryEvent(RouteEvent { point: tracks[0].xy })));
        v
    } else {
        match branch_prefix(prior, &tracks[0].xy) {
            Some(v) => v,
            None => {
                return None;
            },
        }
    };
    let ghost seed = route@;
    let ghost switches = Seq::new((tracks@.len() - 1) as nat, |i: int|
        (cfg.fpga_delay_trackswitch, RouteEventEnum::TrackSwitchEvent(RouteEvent { point: tracks@[i + 1].xy })));
    let mut i: usize = 1;
    while i < tracks.len()
        invariant
            1 <= i <= tracks@.len(),
            switches == Seq::new((tracks@.len() - 1) as nat, |i: int|
                (cfg.fpga_delay_trackswitch, RouteEventEnum::TrackSwitchEvent(RouteEvent { point: tracks@[i + 1].xy }))),
            route@ =~= seed + switches.subrange(0, i - 1),
        decreases tracks@.len() - i,
    {
        route.push((cfg.fpga_delay_trackswitch, RouteEventEnum::TrackSwitchEvent(RouteEvent { point: tracks[i].xy })));
        i = i + 1;
    }
    assert(switches.subrange(0, tracks@.len() - 1) =~= switches);
    let sink = match sink_entry(branch, latched, place, cfg) {
        Some(s) => s,
        None => {
            return None;
        },
    };
    let ghost pre_sink = route@;
    route.push(sink);
    proof {
        assert(route@ =~= seed + switches + seq![sink]);
        if branch.from_opin {
            assert(seed =~= seq![src, (0u32, RouteEventEnum::TrackEntryEvent(RouteEvent { point: tracks@[0].xy }))]);
        }
    }
    match route_delay(&route) {
        Some(_) => Some(route),
        None => None,
    }
}

/// The delay event graph of one net (see `spec_net_graph`).
fn net_graph(net: &RouteNet, latched: &Vec<String>, place: &Placement, cfg: &Config) -> (r: Option<NetDelayEventGraph>)
    ensures
        match r {
            Some(g) => spec_net_graph(*net, latched@.map_values(|s: String| s@), place.entries@, *cfg) == Some(g.deep_view()),
            None => spec_net_graph(*net, latched@.map_values(|s: String| s@), place.entries@, *cfg) is None,
        },
{
    let ghost latches = latched@.map_values(|s: String| s@);
    let src = match source_entry(net, latched, place, cfg) {
        Some(s) => s,
        None => {
            return None;
        },
    };
    let branches = &net.route_tree;
    let mut list: NetDelayEventGraph = Vec::new();
    let mut k: usize = 0;
    assert(list.deep_view() =~= Seq::<(u32, EventSeq)>::empty());
    while k < branches.len()
        invariant
            k <= branches@.len(),
            branches@ == net.route_tree@,
            latches == latched@.map_values(|s: String| s@),
            spec_source_entry(*net, latches, place.entries@, *cfg) == Some(src),
            spec_net_routes(branches@, k as int, src, latches, place.entries@, *cfg) == Some(list.deep_view()),
        decreases branches@.len() - k,
    {
        match branch_route(&list, &branches[k], src, latched, place, cfg) {
            Some(route) => {
                let d = match route_delay(&route) {
                    Some(d) => d,
                    None => 0,
                };
                let ghost old_list = list.deep_view();
                proof { lemma_events_view(route); }
                list.push((d, route));
                assert(list.deep_view() =~= old_list.push((spec_route_delay(route@) as u32, route@)));
            },
            None => {
                proof { lemma_net_routes_none(branches@, k as int + 1, branches@.len() as int, src, latches, place.entries@, *cfg); }
                return None;
            },
        }
        k = k + 1;
    }
    Some(list)
}

proof fn lemma_net_routes_none(branches: Seq<Route>, i: int, n: int, src: (u32, RouteEventEnum),
    latches: Seq<Seq<char>>, place: Seq<(String, Point)>, cfg: Config)
    requires i <= n, spec_net_routes(branches, i, src, latches, place, cfg) is None,
    ensures spec_net_routes(branches, n, src, latches, place, cfg) is None,
    decreases n - i,
{
    if i < n {
        lemma_net_routes_none(branches, i, n - 1, src, latches, place, cfg);
    }
}

proof fn lemma_model_graph_none(nets: Seq<RouteNet>, i: int, n: int, latches: Seq<Seq<char>>, place: Seq<(String, Point)>, cfg: Config)
    requires i <= n, spec_model_graph(nets, i, latches, place, cfg) is None,
    ensures spec_model_graph(nets, n, latches, place, cfg) is None,
    decreases n - i,
{
    if i < n {
        lemma_model_graph_none(nets, i, n - 1, latches, place, cfg);
    }
}

proof fn lemma_graph_list_none(models: Seq<Model>, i: int, n: int, nets: Seq<RouteNet>, place: Seq<(String, Point)>, cfg: Config)
    requires i <= n, spec_graph_list(models, i, nets, place, cfg) is None,
    ensures spec_graph_list(models, n, nets, place, cfg) is None,
    decreases n - i,
{
    if i < n {
        lemma_graph_list_none(models, i, n - 1, nets, place, cfg);
    }
}

/// The delay event graphs of all models (see `spec_delay_event_graph`), or
/// `None` for inputs on which the construction fails.
pub fn try_build_delay_event_graph(models: &Vec<Model>, nets: &Vec<RouteNet>, place_map: &Placement, cfg: &Config) -> (r: Option<NamedDelayEventGraphList>)
    ensures
        match r {
            Some(g) => spec_delay_event_graph(models@, nets@, place_map.entries@, *cfg) == Some(g.deep_view()),
            None => spec_delay_event_graph(models@, nets@, place_map.entries@, *cfg) is None,
        },
{
    let mut graphs: NamedDelayEventGraphList = Vec::new();
    let mut m: usize = 0;
    assert(graphs.deep_view() =~= GraphListView::empty());
    while m < models.len()
        invariant
            m <= models@.len(),
            spec_graph_list(models@, m as int, nets@, place_map.entries@, *cfg) == Some(graphs.deep_view()),
        decreases models@.len() - m,
    {
        let model = &models[m];
        let ghost latches = model.latched@.map_values(|s: String| s@);
        let mut model_graph: DelayEventGraph = Vec::new();
        let mut k: usize = 0;
        assert(model_graph.deep_view() =~= ModelGraphView::empty());
        while k < nets.len()
            invariant
                k <= nets@.len(),
                m < models@.len(),
                *model == models@[m as int],
                latches == spec_latches(*model),
                spec_model_graph(nets@, k as int, latches, place_map.entries@, *cfg) == Some(model_graph.deep_view()),
            decreases nets@.len() - k,
        {
            let net = &nets[k];
            match net_graph(net, &model.latched, place_map, cfg) {
                Some(g) => {
                    let ghost old_mg = model_graph.deep_view();
                    let name = net.name.clone();
                    model_graph.push((name, g));
                    assert(model_graph.deep_view() =~= old_mg.push((nets@[k as int].name@, g.deep_view())));
                },
                None => {
                    proof {
                        lemma_model_graph_none(nets@, k as int + 1, nets@.len() as int, latches, place_map.entries@, *cfg);
                        lemma_graph_list_none(models@, m as int + 1, models@.len() as int, nets@, place_map.entries@, *cfg);
                    }
                    return None;
                },
            }
            k = k + 1;
        }
        let ghost old_g = graphs.deep_view();
        let name = model.name.clone();
        graphs.push((name, model_graph));
        assert(graphs.deep_view() =~= old_g.push((models@[m as int].name@, model_graph.deep_view())));
        m = m + 1;
    }
    Some(graphs)
}

/// Errors of the timing analysis.
#[derive(Clone, Copy, Debug, PartialEq, Eq, Structural)]
pub enum TimingError {
    /// No latched source reaches a sink, so there is no inter-latch path.
    NoInterLatchPath,
    /// The analysis could not complete: a sink that is no placed net, a
    /// cycle of unlatched blocks, or a delay that leaves `u32`.
    Unanalysable,
}

/// Builds the delay event graph of every model: for every net, the events
/// along each of its branches from source to sink, each with its delay.
pub fn build_delay_event_graph(models: &Vec<Model>, nets: &Vec<RouteNet>, place_map: &Placement, cfg: &Config) -> (r: Result<NamedDelayEventGraphList, TimingError>)
    requires
        spec_delay_event_graph(models@, nets@, place_map.entries@, *cfg) is Some,
    ensures
        r matches Ok(g) && spec_delay_event_graph(models@, nets@, place_map.entries@, *cfg) == Some(g.deep_view()),
{
    match try_build_delay_event_graph(models, nets, place_map, cfg) {
        Some(g) => Ok(g),
        None => Err(TimingError::Unanalysable),
    }
}

// ---------------------------------------------------------------------------
// Critical paths
// ---------------------------------------------------------------------------

pub open spec fn spec_max(a: int, b: int) -> int {
    if a >= b { a } else { b }
}

/// Every route delay of the graph list is at most `d`.
pub open spec fn all_route_delays_at_most(gl: GraphListView, d: int) -> bool {
    forall|i: int, j: int, k: int|
        0 <= i < gl.len() && 0 <= j < gl[i].1.len() && 0 <= k < gl[i].1[j].1.len()
            ==> #[trigger] gl[i].1[j].1[k].0 <= d
}

/// Some route of the graph list has delay `d`.
pub open spec fn some_route_delay_is(gl: GraphListView, d: int) -> bool {
    exists|i: int, j: int, k: int|
        0 <= i < gl.len() && 0 <= j < gl[i].1.len() && 0 <= k < gl[i].1[j].1.len()
            && #[trigger] gl[i].1[j].1[k].0 == d
}

/// The longest delay from one logic element to the next: the largest route
/// delay of the graph, `0` for a graph without routes.
pub fn get_inter_ble_critical_path_delay(delay_event_graph: &NamedDelayEventGraphList) -> (r: Result<Delay, TimingError>)
    ensures
        r matches Ok(d) && all_route_delays_at_most(delay_event_graph.deep_view(), d as int)
            && (d == 0 || some_route_delay_is(delay_event_graph.deep_view(), d as int)),
{
    let ghost gl = delay_event_graph.deep_view();
    let mut best: u32 = 0;
    let mut i: usize = 0;
    while i < delay_event_graph.len()
        invariant
            i <= gl.len(),
            gl == delay_event_graph.deep_view(),
            forall|a: int, j: int, k: int|
                0 <= a < i && 0 <= j < gl[a].1.len() && 0 <= k < gl[a].1[j].1.len()
                    ==> #[trigger] gl[a].1[j].1[k].0 <= best,
            best == 0 || some_route_delay_is(gl, best as int),
        decreases gl.len() - i,
    {
        let mg = &delay_event_graph[i].1;
        let mut j: usize = 0;
        while j < mg.len()
            invariant
                i < gl.len(),
                j <= gl[i as int].1.len(),
                gl == delay_event_graph.deep_view(),
                mg.deep_view() == gl[i as int].1,
                forall|a: int, jj: int, k: int|
                    0 <= a < i && 0 <= jj < gl[a].1.len() && 0 <= k < gl[a].1[jj].1.len()
                        ==> #[trigger] gl[a].1[jj].1[k].0 <= best,
                forall|jj: int, k: int| 0 <= jj < j && 0 <= k < gl[i as int].1[jj].1.len()
                    ==> #[trigger] gl[i as int].1[jj].1[k].0 <= best,
                best == 0 || some_route_delay_is(gl, best as int),
            decreases gl[i as int].1.len() - j,
        {
            let ng = &mg[j].1;
            let mut k: usize = 0;
            while k < ng.len()
                invariant
                    i < gl.len(),
                    j < gl[i as int].1.len(),
                    k <= gl[i as int].1[j as int].1.len(),
                    gl == delay_event_graph.deep_view(),
                    mg.deep_view() == gl[i as int].1,
                    ng.deep_view() == gl[i as int].1[j as int].1,
                    forall|a: int, jj: int, kk: int|
                        0 <= a < i && 0 <= jj < gl[a].1.len() && 0 <= kk < gl[a].1[jj].1.len()
                            ==> #[trigger] gl[a].1[jj].1[kk].0 <= best,
                    forall|jj: int, kk: int| 0 <= jj < j && 0 <= kk < gl[i as int].1[jj].1.len()
                        ==> #[trigger] gl[i as int].1[jj].1[kk].0 <= best,
                    forall|kk: int| 0 <= kk < k ==> #[trigger] gl[i as int].1[j as int].1[kk].0 <= best,
                    best == 0 || some_route_delay_is(gl, best as int),
                decreases gl[i as int].1[j as int].1.len() - k,
            {
                let d = ng[k].0;
                assert(gl[i as int].1[j as int].1[k as int].0 == d);
                if d > best {
                    best = d;
                }
                k = k + 1;
            }
            j = j + 1;
        }
        i = i + 1;
    }
    Ok(best)
}

/// The graph of the first net of a model named `name`, from net `k` on.
pub open spec fn spec_lookup_net(mg: ModelGraphView, name: Seq<char>, k: int) -> Option<NetGraphView>
    decreases mg.len() - k,
{
    if k < 0 || k >= mg.len() {
        None
    } else if mg[k].0 == name {
        Some(mg[k].1)
    } else {
        spec_lookup_net(mg, name, k + 1)
    }
}

/// The net driven by the block that a route's last event reaches.
pub open spec fn spec_sink_net(route: EventSeq, mg: ModelGraphView, place: Seq<(String, Point)>) -> Option<NetGraphView> {
    match spec_name_at(place, spec_event_point(route.last().1)) {
        None => None,
        Some(name) => spec_lookup_net(mg, name, 0),
    }
}

/// The longest continuation over the first `n` routes of a net: a route to
/// a latched sink contributes its delay, a route to an unlatched block the
/// delay of the paths through that block's net, others nothing. `fuel`
/// bounds how many unlatched blocks a path may pass; `None` when it runs out,
/// when a route is empty, when an unlatched sink drives no net, or when a
/// delay leaves `u32`.
pub open spec fn spec_async_routes_max(ng: NetGraphView, n: int, mg: ModelGraphView, place: Seq<(String, Point)>, fuel: nat) -> Option<int>
    decreases fuel, n,
{
    if n <= 0 {
        Some(0)
    } else {
        match spec_async_routes_max(ng, n - 1, mg, place, fuel) {
            None => None,
            Some(m) => {
                let r = ng[n - 1];
                if r.1.len() == 0 {
                    None
                } else {
                    match r.1.last().1 {
                        RouteEventEnum::AsyncSinkEvent(_) => match spec_sink_net(r.1, mg, place) {
                            None => None,
                            Some(sub) => if fuel == 0 {
                                None
                            } else {
                                match spec_async_path_delay(r.0 as int, sub, mg, place, (fuel - 1) as nat) {
                                    None => None,
                                    Some(v) => Some(spec_max(m, v)),
                                }
                            },
                        },
                        RouteEventEnum::SyncSinkEvent(_) => Some(spec_max(m, r.0 as int)),
                        _ => Some(m),
                    }
                }
            },
        }
    }
}

/// `seed` plus the longest continuation through the routes of net `ng`.
pub open spec fn spec_async_path_delay(seed: int, ng: NetGraphView, mg: ModelGraphView, place: Seq<(String, Point)>, fuel: nat) -> Option<int>
    decreases fuel, ng.len() + 1,
{
    match spec_async_routes_max(ng, ng.len() as int, mg, place, fuel) {
        None => None,
        Some(m) => if seed + m <= u32::MAX { Some(seed + m) } else { None },
    }
}

/// The net starts at a synchronous (latched or pad) source; `None` when it
/// has no route or its first route no event.
pub open spec fn spec_sync_source(ng: NetGraphView) -> Option<bool> {
    if ng.len() == 0 || ng[0].1.len() == 0 {
        None
    } else {
        Some(ng[0].1[0].1 is SyncSourceEvent)
    }
}

/// The longest latch-to-latch delay through the first `n` nets of a model,
/// starting from `best`.
pub open spec fn spec_async_model_max(best: int, mg: ModelGraphView, n: int, place: Seq<(String, Point)>) -> Option<int>
    decreases n,
{
    if n <= 0 {
        Some(best)
    } else {
        match spec_async_model_max(best, mg, n - 1, place) {
            None => None,
            Some(b) => match spec_sync_source(mg[n - 1].1) {
                None => None,
                Some(false) => Some(b),
                Some(true) => match spec_async_routes_max(mg[n - 1].1, mg[n - 1].1.len() as int, mg, place, mg.len()) {
                    None => None,
                    Some(v) => Some(spec_max(b, v)),
                },
            },
        }
    }
}

/// The longest latch-to-latch delay of the first `n` models.
pub open spec fn spec_async_list_max(gl: GraphListView, n: int, place: Seq<(String, Point)>) -> Option<int>
    decreases n,
{
    if n <= 0 {
        Some(0)
    } else {
        match spec_async_list_max(gl, n - 1, place) {
            None => None,
            Some(b) => spec_async_model_max(b, gl[n - 1].1, gl[n - 1].1.len() as int, place),
        }
    }
}

/// The longest path from a latched block to a latched block through any
/// number of unlatched blocks, summing the route delays along it.
pub open spec fn spec_async_inter_latch(gl: GraphListView, place: Seq<(String, Point)>) -> Option<int> {
    spec_async_list_max(gl, gl.len() as int, place)
}

/// The graph of the first net of `mg` named `name`.
fn lookup_net<'a>(mg: &'a DelayEventGraph, name: &String) -> (r: Option<&'a NetDelayEventGraph>)
    ensures
        match r {
            Some(g) => spec_lookup_net(mg.deep_view(), name@, 0) == Some(g.deep_view()),
            None => spec_lookup_net(mg.deep_view(), name@, 0) is None,
        },
{
    let ghost mv = mg.deep_view();
    let mut k: usize = 0;
    while k < mg.len()
        invariant
            k <= mg@.len(),
            mv == mg.deep_view(),
            spec_lookup_net(mv, name@, 0) == spec_lookup_net(mv, name@, k as int),
        decreases mg@.len() - k,
    {
        if mg[k].0 == *name {
            return Some(&mg[k].1);
        }
        k = k + 1;
    }
    None
}

/// The net driven by the block that a route's last event reaches.
fn sink_net<'a>(route: &Vec<(u32, RouteEventEnum)>, mg: &'a DelayEventGraph, place: &Placement) -> (r: Option<&'a NetDelayEventGraph>)
    requires
        route@.len() > 0,
    ensures
        match r {
            Some(g) => spec_sink_net(route@, mg.deep_view(), place.entries@) == Some(g.deep_view()),
            None => spec_sink_net(route@, mg.deep_view(), place.entries@) is None,
        },
{
    let p = route[route.len() - 1].1.point();
    match place.get_name(&p) {
        None => None,
        Some(name) => lookup_net(mg, name),
    }
}

/// The longest continuation over the routes of a net (see `spec_async_routes_max`).
fn async_routes_max(ng: &NetDelayEventGraph, mg: &DelayEventGraph, place: &Placement, fuel: usize) -> (r: Option<u32>)
    ensures
        match r {
            Some(v) => spec_async_routes_max(ng.deep_view(), ng@.len() as int, mg.deep_view(), place.entries@, fuel as nat) == Some(v as int),
            None => spec_async_routes_max(ng.deep_view(), ng@.len() as int, mg.deep_view(), place.entries@, fuel as nat) is None,
        },
    decreases fuel, 0int,
{
    let ghost nv = ng.deep_view();
    let ghost mv = mg.deep_view();
    let mut longest: u32 = 0;
    let mut k: usize = 0;
    while k < ng.len()
        invariant
            k <= ng@.len(),
            nv == ng.deep_view(),
            mv == mg.deep_view(),
            spec_async_routes_max(nv, k as int, mv, place.entries@, fuel as nat) == Some(longest as int),
        decreases ng@.len() - k,
    {
        let route = &ng[k].1;
        proof { lemma_events_view(*route); }
        if route.len() == 0 {
            proof { lemma_async_routes_none(nv, k as int + 1, ng@.len() as int, mv, place.entries@, fuel as nat); }
            return None;
        }
        let child: u32 = match route[route.len() - 1].1 {
            RouteEventEnum::AsyncSinkEvent(_) => {
                match sink_net(route, mg, place) {
                    None => {
                        proof { lemma_async_routes_none(nv, k as int + 1, ng@.len() as int, mv, place.entries@, fuel as nat); }
                        return None;
                    },
                    Some(sub) => {
                        if fuel == 0 {
                            proof { lemma_async_routes_none(nv, k as int + 1, ng@.len() as int, mv, place.entries@, fuel as nat); }
                            return None;
                        }
                        match async_inter_latch_crit_path_delay_helper(ng[k].0, sub, mg, place, fuel - 1) {
                            None => {
                                proof { lemma_async_routes_none(nv, k as int + 1, ng@.len() as int, mv, place.entries@, fuel as nat); }
                                return None;
                            },
                            Some(v) => v,
                        }
                    },
                }
            },
            RouteEventEnum::SyncSinkEvent(_) => ng[k].0,
            _ => 0,
        };
        if child > longest {
            longest = child;
        }
        k = k + 1;
    }
    Some(longest)
}

proof fn lemma_async_routes_none(ng: NetGraphView, i: int, n: int, mg: ModelGraphView, place: Seq<(String, Point)>, fuel: nat)
    requires i <= n, spec_async_routes_max(ng, i, mg, place, fuel) is None,
    ensures spec_async_routes_max(ng, n, mg, place, fuel) is None,
    decreases n - i,
{
    if i < n {
        lemma_async_routes_none(ng, i, n - 1, mg, place, fuel);
    }
}

/// `seed` plus the longest continuation through the routes of a net (see
/// `spec_async_path_delay`).
fn async_inter_latch_crit_path_delay_helper(seed: u32, ng: &NetDelayEventGraph, mg: &DelayEventGraph, place: &Placement, fuel: usize) -> (r: Option<u32>)
    ensures
        match r {
            Some(v) => spec_async_path_delay(seed as int, ng.deep_view(), mg.deep_view(), place.entries@, fuel as nat) == Some(v as int),
            None => spec_async_path_delay(seed as int, ng.deep_view(), mg.deep_view(), place.entries@, fuel as nat) is None,
        },
    decreases fuel, 1int,
{
    match async_routes_max(ng, mg, place, fuel) {
        None => None,
        Some(m) => seed.checked_add(m),
    }
}

proof fn lemma_async_model_none(best: int, mg: ModelGraphView, i: int, n: int, place: Seq<(String, Point)>)
    requires i <= n, spec_async_model_max(best, mg, i, place) is None,
    ensures spec_async_model_max(best, mg, n, place) is None,
    decreases n - i,
{
    if i < n {
        lemma_async_model_none(best, mg, i, n - 1, place);
    }
}

proof fn lemma_async_list_none(gl: GraphListView, i: int, n: int, place: Seq<(String, Point)>)
    requires i <= n, spec_async_list_max(gl, i, place) is None,
    ensures spec_async_list_max(gl, n, place) is None,
    decreases n - i,
{
    if i < n {
        lemma_async_list_none(gl, i, n - 1, place);
    }
}

/// Whether the net starts at a synchronous source (see `spec_sync_source`).
fn sync_source(ng: &NetDelayEventGraph) -> (r: Option<bool>)
    ensures
        r == spec_sync_source(ng.deep_view()),
{
    if ng.len() == 0 {
        return None;
    }
    let route = &ng[0].1;
    proof { lemma_events_view(*route); }
    if route.len() == 0 {
        return None;
    }
    match route[0].1 {
        RouteEventEnum::SyncSourceEvent(_) => Some(true),
        _ => Some(false),
    }
}

/// The longest latch-to-latch delay (see `spec_async_inter_latch`), or
/// `None` where it cannot be computed.
fn async_inter_latch(gl: &NamedDelayEventGraphList, place: &Placement) -> (r: Option<u32>)
    ensures
        match r {
            Some(v) => spec_async_inter_latch(gl.deep_view(), place.entries@) == Some(v as int),
            None => spec_async_inter_latch(gl.deep_view(), place.entries@) is None,
        },
{
    let ghost glv = gl.deep_view();
    let mut best: u32 = 0;
    let mut i: usize = 0;
    while i < gl.len()
        invariant
            i <= gl@.len(),
            glv == gl.deep_view(),
            spec_async_list_max(glv, i as int, place.entries@) == Some(best as int),
        decreases gl@.len() - i,
    {
        let mg = &gl[i].1;
        let ghost mv = mg.deep_view();
        let ghost b0 = best as int;
        let mut j: usize = 0;
        while j < mg.len()
            invariant
                i < gl@.len(),
                j <= mg@.len(),
                glv == gl.deep_view(),
                mv == mg.deep_view(),
                mv == glv[i as int].1,
                spec_async_list_max(glv, i as int, place.entries@) == Some(b0),
                spec_async_model_max(b0, mv, j as int, place.entries@) == Some(best as int),
            decreases mg@.len() - j,
        {
            let ng = &mg[j].1;
            match sync_source(ng) {
                None => {
                    proof {
                        lemma_async_model_none(b0, mv, j as int + 1, mv.len() as int, place.entries@);
                        lemma_async_list_none(glv, i as int + 1, glv.len() as int, place.entries@);
                    }
                    return None;
                },
                Some(false) => {},
                Some(true) => {
                    match async_routes_max(ng, mg, place, mg.len()) {
                        None => {
                            proof {
                                lemma_async_model_none(b0, mv, j as int + 1, mv.len() as int, place.entries@);
                                lemma_async_list_none(glv, i as int + 1, glv.len() as int, place.entries@);
                            }
                            return None;
                        },
                        Some(v) => {
                            if v > best {
                                best = v;
                            }
                        },
                    }
                },
            }
            j = j + 1;
        }
        i = i + 1;
    }
    Some(best)
}

/// The longest delay from a latched block to a latched block through any
/// number of unlatched blocks: for asynchronously flowing circuits. Paths
/// start at the routes of nets with a synchronous source; an error when no
/// such path has a delay.
pub fn get_async_inter_latch_crit_path_delay(delay_event_graph: &NamedDelayEventGraphList, place_map: &Placement) -> (r: Result<Delay, TimingError>)
    requires
        spec_async_inter_latch(delay_event_graph.deep_view(), place_map.entries@) is Some,
    ensures
        ({
            let v = spec_async_inter_latch(delay_event_graph.deep_view(), place_map.entries@)->0;
            r == if v == 0 { Err(TimingError::NoInterLatchPath) } else { Ok(v as u32) }
        }),
{
    match async_inter_latch(delay_event_graph, place_map) {
        Some(v) => if v != 0 { Ok(v) } else { Err(TimingError::NoInterLatchPath) },
        None => Err(TimingError::Unanalysable),
    }
}

/// `get_async_inter_latch_crit_path_delay` for any input: an error
/// `Unanalysable` where the delay cannot be computed.
pub fn try_get_async_inter_latch_crit_path_delay(delay_event_graph: &NamedDelayEventGraphList, place_map: &Placement) -> (r: Result<Delay, TimingError>)
    ensures
        r == match spec_async_inter_latch(delay_event_graph.deep_view(), place_map.entries@) {
            None => Err(TimingError::Unanalysable),
            Some(v) => if v == 0 { Err(TimingError::NoInterLatchPath) } else { Ok(v as u32) },
        },
{
    match async_inter_latch(delay_event_graph, place_map) {
        Some(v) => if v != 0 { Ok(v) } else { Err(TimingError::NoInterLatchPath) },
        None => Err(TimingError::Unanalysable),
    }
}

/// The largest number of links over the first `n` routes of a net: a route
/// to a latched sink counts one link, a route to an unlatched block one link
/// more than the paths through that block's net, others none.
pub open spec fn spec_sync_routes_max(ng: NetGraphView, n: int, mg: ModelGraphView, place: Seq<(String, Point)>, fuel: nat) -> Option<int>
    decreases fuel, n,
{
    if n <= 0 {
        Some(0)
    } else {
        match spec_sync_routes_max(ng, n - 1, mg, place, fuel) {
            None => None,
            Some(m) => {
                let r = ng[n - 1];
                if r.1.len() == 0 {
                    None
                } else {
                    match r.1.last().1 {
                        RouteEventEnum::AsyncSinkEvent(_) => match spec_sink_net(r.1, mg, place) {
                            None => None,
                            Some(sub) => if fuel == 0 {
                                None
                            } else {
                                match spec_sync_path_count(sub, mg, place, (fuel - 1) as nat) {
                                    None => None,
                                    Some(c) => if 1 + c <= u32::MAX { Some(spec_max(m, 1 + c)) } else { None },
                                }
                            },
                        },
                        RouteEventEnum::SyncSinkEvent(_) => Some(spec_max(m, 1)),
                        _ => Some(m),
                    }
                }
            },
        }
    }
}

/// The largest number of links of the paths through the routes of a net.
pub open spec fn spec_sync_path_count(ng: NetGraphView, mg: ModelGraphView, place: Seq<(String, Point)>, fuel: nat) -> Option<int>
    decreases fuel, ng.len() + 1,
{
    spec_sync_routes_max(ng, ng.len() as int, mg, place, fuel)
}

/// The largest number of links over the first `n` nets of a model: a net
/// that starts at a synchronous source counts the links of its paths (see
/// `spec_sync_path_count`), any other net none.
pub open spec fn spec_sync_model_max(mg: ModelGraphView, n: int, place: Seq<(String, Point)>) -> Option<int>
    decreases n,
{
    if n <= 0 {
        Some(0)
    } else {
        match spec_sync_model_max(mg, n - 1, place) {
            None => None,
            Some(m) => match spec_sync_source(mg[n - 1].1) {
                None => None,
                Some(false) => Some(m),
                Some(true) => match spec_sync_path_count(mg[n - 1].1, mg, place, mg.len()) {
                    None => None,
                    Some(c) => Some(spec_max(m, c)),
                },
            },
        }
    }
}

/// The largest number of links over the first `n` models.
pub open spec fn spec_sync_list_max(gl: GraphListView, n: int, place: Seq<(String, Point)>) -> Option<int>
    decreases n,
{
    if n <= 0 {
        Some(0)
    } else {
        match spec_sync_list_max(gl, n - 1, place) {
            None => None,
            Some(m) => match spec_sync_model_max(gl[n - 1].1, gl[n - 1].1.len() as int, place) {
                None => None,
                Some(c) => Some(spec_max(m, c)),
            },
        }
    }
}

/// The number of links of the latch-to-latch path with the most links, each
/// link being one route from block to block: the largest, over the routes of
/// the nets that start at a synchronous source, of one for a route to a
/// latched sink and one more than the paths through the driven net for a
/// route to an unlatched block; `0` where there is no such route.
pub open spec fn spec_sync_latch_count(gl: GraphListView, place: Seq<(String, Point)>) -> Option<int> {
    spec_sync_list_max(gl, gl.len() as int, place)
}

proof fn lemma_sync_routes_none(ng: NetGraphView, i: int, n: int, mg: ModelGraphView, place: Seq<(String, Point)>, fuel: nat)
    requires i <= n, spec_sync_routes_max(ng, i, mg, place, fuel) is None,
    ensures spec_sync_routes_max(ng, n, mg, place, fuel) is None,
    decreases n - i,
{
    if i < n {
        lemma_sync_routes_none(ng, i, n - 1, mg, place, fuel);
    }
}

proof fn lemma_sync_model_max_none(mg: ModelGraphView, i: int, n: int, place: Seq<(String, Point)>)
    requires i <= n, spec_sync_model_max(mg, i, place) is None,
    ensures spec_sync_model_max(mg, n, place) is None,
    decreases n - i,
{
    if i < n {
        lemma_sync_model_max_none(mg, i, n - 1, place);
    }
}

proof fn lemma_sync_list_max_none(gl: GraphListView, i: int, n: int, place: Seq<(String, Point)>)
    requires i <= n, spec_sync_list_max(gl, i, place) is None,
    ensures spec_sync_list_max(gl, n, place) is None,
    decreases n - i,
{
    if i < n {
        lemma_sync_list_max_none(gl, i, n - 1, place);
    }
}

/// The largest number of links over the routes of a net (see `spec_sync_routes_max`).
fn sync_routes_max(ng: &NetDelayEventGraph, mg: &DelayEventGraph, place: &Placement, fuel: usize) -> (r: Option<u32>)
    ensures
        match r {
            Some(v) => spec_sync_routes_max(ng.deep_view(), ng@.len() as int, mg.deep_view(), place.entries@, fuel as nat) == Some(v as int),
            None => spec_sync_routes_max(ng.deep_view(), ng@.len() as int, mg.deep_view(), place.entries@, fuel as nat) is None,
        },
    decreases fuel, 0int,
{
    let ghost nv = ng.deep_view();
    let ghost mv = mg.deep_view();
    let mut count_max: u32 = 0;
    let mut k: usize = 0;
    while k < ng.len()
        invariant
            k <= ng@.len(),
            nv == ng.deep_view(),
            mv == mg.deep_view(),
            spec_sync_routes_max(nv, k as int, mv, place.entries@, fuel as nat) == Some(count_max as int),
        decreases ng@.len() - k,
    {
        let route = &ng[k].1;
        proof { lemma_events_view(*route); }
        if route.len() == 0 {
            proof { lemma_sync_routes_none(nv, k as int + 1, ng@.len() as int, mv, place.entries@, fuel as nat); }
            return None;
        }
        let count: u32 = match route[route.len() - 1].1 {
            RouteEventEnum::AsyncSinkEvent(_) => {
                match sink_net(route, mg, place) {
                    None => {
                        proof { lemma_sync_routes_none(nv, k as int + 1, ng@.len() as int, mv, place.entries@, fuel as nat); }
                        return None;
                    },
                    Some(sub) => {
                        if fuel == 0 {
                            proof { lemma_sync_routes_none(nv, k as int + 1, ng@.len() as int, mv, place.entries@, fuel as nat); }
                            return None;
                        }
                        let c = match sync_inter_latch_crit_path_count(sub, mg, place, fuel - 1) {
                            None => {
                                proof { lemma_sync_routes_none(nv, k as int + 1, ng@.len() as int, mv, place.entries@, fuel as nat); }
                                return None;
                            },
                            Some(c) => c,
                        };
                        match c.checked_add(1) {
                            None => {
                                proof { lemma_sync_routes_none(nv, k as int + 1, ng@.len() as int, mv, place.entries@, fuel as nat); }
                                return None;
                            },
                            Some(c1) => c1,
                        }
                    },
                }
            },
            RouteEventEnum::SyncSinkEvent(_) => 1,
            _ => 0,
        };
        if count > count_max {
            count_max = count;
        }
        k = k + 1;
    }
    Some(count_max)
}

/// The largest number of links of the paths through the routes of a net
/// (see `spec_sync_path_count`).
fn sync_inter_latch_crit_path_count(ng: &NetDelayEventGraph, mg: &DelayEventGraph, place: &Placement, fuel: usize) -> (r: Option<u32>)
    ensures
        match r {
            Some(v) => spec_sync_path_count(ng.deep_view(), mg.deep_view(), place.entries@, fuel as nat) == Some(v as int),
            None => spec_sync_path_count(ng.deep_view(), mg.deep_view(), place.entries@, fuel as nat) is None,
        },
    decreases fuel, 1int,
{
    sync_routes_max(ng, mg, place, fuel)
}

/// The largest number of links over the nets of a model (see `spec_sync_model_max`).
fn sync_model_max(mg: &DelayEventGraph, place: &Placement) -> (r: Option<u32>)
    ensures
        match r {
            Some(v) => spec_sync_model_max(mg.deep_view(), mg@.len() as int, place.entries@) == Some(v as int),
            None => spec_sync_model_max(mg.deep_view(), mg@.len() as int, place.entries@) is None,
        },
{
    let ghost mv = mg.deep_view();
    let mut count_max: u32 = 0;
    let mut j: usize = 0;
    while j < mg.len()
        invariant
            j <= mg@.len(),
            mv == mg.deep_view(),
            spec_sync_model_max(mv, j as int, place.entries@) == Some(count_max as int),
        decreases mg@.len() - j,
    {
        let ng = &mg[j].1;
        assert(ng.deep_view() == mv[j as int].1);
        match sync_source(ng) {
            None => {
                proof { lemma_sync_model_max_none(mv, j as int + 1, mv.len() as int, place.entries@); }
                return None;
            },
            Some(false) => {},
            Some(true) => {
                match sync_inter_latch_crit_path_count(ng, mg, place, mg.len()) {
                    None => {
                        proof { lemma_sync_model_max_none(mv, j as int + 1, mv.len() as int, place.entries@); }
                        return None;
                    },
                    Some(c) => {
                        if c > count_max {
                            count_max = c;
                        }
                    },
                }
            },
        }
        j = j + 1;
    }
    Some(count_max)
}

/// The number of links of the longest latch-to-latch path (see `spec_sync_latch_count`).
fn sync_latch_count(gl: &NamedDelayEventGraphList, place: &Placement) -> (r: Option<u32>)
    ensures
        match r {
            Some(v) => spec_sync_latch_count(gl.deep_view(), place.entries@) == Some(v as int),
            None => spec_sync_latch_count(gl.deep_view(), place.entries@) is None,
        },
{
    let ghost glv = gl.deep_view();
    let mut count_max: u32 = 0;
    let mut i: usize = 0;
    while i < gl.len()
        invariant
            i <= gl@.len(),
            glv == gl.deep_view(),
            spec_sync_list_max(glv, i as int, place.entries@) == Some(count_max as int),
        decreases gl@.len() - i,
    {
        let mg = &gl[i].1;
        assert(mg.deep_view() == glv[i as int].1);
        match sync_model_max(mg, place) {
            None => {
                proof { lemma_sync_list_max_none(glv, i as int + 1, glv.len() as int, place.entries@); }
                return None;
            },
            Some(c) => {
                if c > count_max {
                    count_max = c;
                }
            },
        }
        i = i + 1;
    }
    Some(count_max)
}

/// The longest latch-to-latch path for synchronously flowing circuits, where
/// every block is clocked: the number of links of the path with the most
/// links, times the longest delay between two logic elements. An error when
/// there is no such path or that delay is zero.
pub fn get_sync_inter_latch_crit_path_delay(inter_ble_critical_path: Delay, delay_event_graph: &NamedDelayEventGraphList, place_map: &Placement) -> (r: Result<Delay, TimingError>)
    requires
        spec_sync_latch_count(delay_event_graph.deep_view(), place_map.entries@) matches Some(c)
            && (c != 0 && inter_ble_critical_path != 0 ==> c * inter_ble_critical_path <= u32::MAX),
    ensures
        ({
            let c = spec_sync_latch_count(delay_event_graph.deep_view(), place_map.entries@)->0;
            r == if c != 0 && inter_ble_critical_path != 0 {
                Ok((c * inter_ble_critical_path) as u32)
            } else {
                Err(TimingError::NoInterLatchPath)
            }
        }),
{
    try_get_sync_inter_latch_crit_path_delay(inter_ble_critical_path, delay_event_graph, place_map)
}

/// `get_sync_inter_latch_crit_path_delay` for any input: an error
/// `Unanalysable` where the count cannot be computed or the product leaves `u32`.
pub fn try_get_sync_inter_latch_crit_path_delay(inter_ble_critical_path: Delay, delay_event_graph: &NamedDelayEventGraphList, place_map: &Placement) -> (r: Result<Delay, TimingError>)
    ensures
        r == match spec_sync_latch_count(delay_event_graph.deep_view(), place_map.entries@) {
            None => Err(TimingError::Unanalysable),
            Some(c) => if c != 0 && inter_ble_critical_path != 0 {
                if c * inter_ble_critical_path <= u32::MAX {
                    Ok((c * inter_ble_critical_path) as u32)
                } else {
                    Err(TimingError::Unanalysable)
                }
            } else {
                Err(TimingError::NoInterLatchPath)
            },
        },
{
    match sync_latch_count(delay_event_graph, place_map) {
        None => Err(TimingError::Unanalysable),
        Some(c) => {
            if c != 0 && inter_ble_critical_path != 0 {
                match c.checked_mul(inter_ble_critical_path) {
                    Some(v) => Ok(v),
                    None => Err(TimingError::Unanalysable),
                }
            } else {
                Err(TimingError::NoInterLatchPath)
            }
        },
    }
}

// ---------------------------------------------------------------------------
// Laws
// ---------------------------------------------------------------------------

/// Every route of a net records as its delay the sum of the delays of its
/// events, and ends at a sink.
pub open spec fn net_routes_consistent(ng: NetGraphView) -> bool {
    forall|k: int| 0 <= k < ng.len() ==> {
        &&& (#[trigger] ng[k]).0 == spec_route_delay(ng[k].1)
        &&& ng[k].1.len() > 0
        &&& (ng[k].1.last().1 is SyncSinkEvent || ng[k].1.last().1 is AsyncSinkEvent)
    }
}

proof fn lemma_sink_entry_is_sink(branch: Route, latches: Seq<Seq<char>>, place: Seq<(String, Point)>, cfg: Config)
    requires
        spec_sink_entry(branch, latches, place, cfg) is Some,
    ensures
        (spec_sink_entry(branch, latches, place, cfg)->0).1 is SyncSinkEvent
            || (spec_sink_entry(branch, latches, place, cfg)->0).1 is AsyncSinkEvent,
{
}

proof fn lemma_net_routes_consistent(branches: Seq<Route>, n: int, src: (u32, RouteEventEnum),
    latches: Seq<Seq<char>>, place: Seq<(String, Point)>, cfg: Config)
    requires
        spec_net_routes(branches, n, src, latches, place, cfg) is Some,
    ensures
        net_routes_consistent(spec_net_routes(branches, n, src, latches, place, cfg)->0),
    decreases n,
{
    if n > 0 {
        lemma_net_routes_consistent(branches, n - 1, src, latches, place, cfg);
        let prior = spec_net_routes(branches, n - 1, src, latches, place, cfg)->0;
        let branch = branches[n - 1];
        let route = spec_branch_route(prior, branch, src, latches, place, cfg)->0;
        lemma_sink_entry_is_sink(branch, latches, place, cfg);
        let tracks = branch.tracks@;
        let seed = if branch.from_opin {
            Some(seq![src, (0u32, RouteEventEnum::TrackEntryEvent(RouteEvent { point: tracks[0].xy }))])
        } else {
            spec_branch_prefix(prior, tracks[0].xy, 0)
        };
        let switches = Seq::new((tracks.len() - 1) as nat, |i: int|
            (cfg.fpga_delay_trackswitch, RouteEventEnum::TrackSwitchEvent(RouteEvent { point: tracks[i + 1].xy })));
        let sink = spec_sink_entry(branch, latches, place, cfg)->0;
        assert(route == seed->0 + switches + seq![sink]);
        assert(route.last() == sink);
        assert(spec_route_delay(route) <= u32::MAX);
        lemma_route_delay_nonneg(route);
        let ng = prior.push((spec_route_delay(route) as u32, route));
        assert forall|k: int| 0 <= k < ng.len() implies {
            &&& (#[trigger] ng[k]).0 == spec_route_delay(ng[k].1)
            &&& ng[k].1.len() > 0
            &&& (ng[k].1.last().1 is SyncSinkEvent || ng[k].1.last().1 is AsyncSinkEvent)
        } by {
            if k < prior.len() {
                assert(ng[k] == prior[k]);
            } else {
                assert(ng[k] == (spec_route_delay(route) as u32, route));
            }
        }
    }
}

proof fn lemma_route_delay_nonneg(route: EventSeq)
    ensures
        spec_route_delay(route) >= 0,
    decreases route.len(),
{
    if route.len() > 0 {
        lemma_route_delay_nonneg(route.drop_last());
    }
}

proof fn lemma_model_graph_consistent(nets: Seq<RouteNet>, n: int, latches: Seq<Seq<char>>, place: Seq<(String, Point)>, cfg: Config)
    requires
        spec_model_graph(nets, n, latches, place, cfg) is Some,
    ensures
        ({
            let mg = spec_model_graph(nets, n, latches, place, cfg)->0;
            forall|j: int| 0 <= j < mg.len() ==> net_routes_consistent(#[trigger] mg[j].1)
        }),
    decreases n,
{
    if n > 0 {
        lemma_model_graph_consistent(nets, n - 1, latches, place, cfg);
        let net = nets[n - 1];
        let src = spec_source_entry(net, latches, place, cfg)->0;
        lemma_net_routes_consistent(net.route_tree@, net.route_tree@.len() as int, src, latches, place, cfg);
        let prev = spec_model_graph(nets, n - 1, latches, place, cfg)->0;
        let mg = spec_model_graph(nets, n, latches, place, cfg)->0;
        assert forall|j: int| 0 <= j < mg.len() implies net_routes_consistent(#[trigger] mg[j].1) by {
            if j < prev.len() {
                assert(mg[j] == prev[j]);
            }
        }
    }
}

proof fn lemma_graph_list_consistent(models: Seq<Model>, n: int, nets: Seq<RouteNet>, place: Seq<(String, Point)>, cfg: Config)
    requires
        spec_graph_list(models, n, nets, place, cfg) is Some,
    ensures
        ({
            let gl = spec_graph_list(models, n, nets, place, cfg)->0;
            forall|i: int, j: int| 0 <= i < gl.len() && 0 <= j < gl[i].1.len() ==> net_routes_consistent(#[trigger] gl[i].1[j].1)
        }),
    decreases n,
{
    if n > 0 {
        lemma_graph_list_consistent(models, n - 1, nets, place, cfg);
        lemma_model_graph_consistent(nets, nets.len() as int, spec_latches(models[n - 1]), place, cfg);
        let prev = spec_graph_list(models, n - 1, nets, place, cfg)->0;
        let gl = spec_graph_list(models, n, nets, place, cfg)->0;
        assert forall|i: int, j: int| 0 <= i < gl.len() && 0 <= j < gl[i].1.len() implies net_routes_consistent(#[trigger] gl[i].1[j].1) by {
            if i < prev.len() {
                assert(gl[i] == prev[i]);
            }
        }
    }
}

/// In a delay event graph every route's delay is the sum of the delays of
/// its events, every route ends at a sink, there is one graph per model and
/// one net graph per net in each.
pub proof fn law_delay_graph_routes(models: Seq<Model>, nets: Seq<RouteNet>, place: Seq<(String, Point)>, cfg: Config)
    requires
        spec_delay_event_graph(models, nets, place, cfg) is Some,
    ensures
        ({
            let gl = spec_delay_event_graph(models, nets, place, cfg)->0;
            &&& gl.len() == models.len()
            &&& forall|i: int| 0 <= i < gl.len() ==> (#[trigger] gl[i]).1.len() == nets.len()
            &&& forall|i: int, j: int| 0 <= i < gl.len() && 0 <= j < gl[i].1.len()
                ==> net_routes_consistent(#[trigger] gl[i].1[j].1)
        }),
{
    lemma_graph_list_consistent(models, models.len() as int, nets, place, cfg);
    lemma_graph_list_shape(models, models.len() as int, nets, place, cfg);
}

proof fn lemma_model_graph_len(nets: Seq<RouteNet>, n: int, latches: Seq<Seq<char>>, place: Seq<(String, Point)>, cfg: Config)
    requires
        0 <= n,
        spec_model_graph(nets, n, latches, place, cfg) is Some,
    ensures
        spec_model_graph(nets, n, latches, place, cfg)->0.len() == n,
    decreases n,
{
    if n > 0 {
        lemma_model_graph_len(nets, n - 1, latches, place, cfg);
    }
}

proof fn lemma_graph_list_shape(models: Seq<Model>, n: int, nets: Seq<RouteNet>, place: Seq<(String, Point)>, cfg: Config)
    requires
        0 <= n,
        spec_graph_list(models, n, nets, place, cfg) is Some,
    ensures
        ({
            let gl = spec_graph_list(models, n, nets, place, cfg)->0;
            &&& gl.len() == n
            &&& forall|i: int| 0 <= i < gl.len() ==> (#[trigger] gl[i]).1.len() == nets.len()
        }),
    decreases n,
{
    if n > 0 {
        lemma_graph_list_shape(models, n - 1, nets, place, cfg);
        lemma_model_graph_len(nets, nets.len() as int, spec_latches(models[n - 1]), place, cfg);
        let prev = spec_graph_list(models, n - 1, nets, place, cfg)->0;
        let gl = spec_graph_list(models, n, nets, place, cfg)->0;
        assert forall|i: int| 0 <= i < gl.len() implies (#[trigger] gl[i]).1.len() == nets.len() by {
            if i < prev.len() {
                assert(gl[i] == prev[i]);
            }
        }
    }
}

/// A route of a net graph that ends at a synchronous sink.
pub open spec fn ends_synchronously(r: (u32, EventSeq)) -> bool {
    r.1.len() > 0 && r.1.last().1 is SyncSinkEvent
}

proof fn lemma_routes_max_covers(ng: NetGraphView, n: int, mg: ModelGraphView, place: Seq<(String, Point)>, fuel: nat)
    requires
        0 <= n <= ng.len(),
        spec_async_routes_max(ng, n, mg, place, fuel) is Some,
    ensures
        spec_async_routes_max(ng, n, mg, place, fuel)->0 >= 0,
        forall|k: int| 0 <= k < n && ends_synchronously(#[trigger] ng[k])
            ==> spec_async_routes_max(ng, n, mg, place, fuel)->0 >= ng[k].0,
    decreases n,
{
    if n > 0 {
        lemma_routes_max_covers(ng, n - 1, mg, place, fuel);
    }
}

proof fn lemma_model_max_covers(best: int, mg: ModelGraphView, n: int, place: Seq<(String, Point)>)
    requires
        0 <= n <= mg.len(),
        best >= 0,
        spec_async_model_max(best, mg, n, place) is Some,
    ensures
        spec_async_model_max(best, mg, n, place)->0 >= best,
        forall|j: int, k: int| 0 <= j < n && 0 <= k < mg[j].1.len()
            && spec_sync_source(mg[j].1) == Some(true) && ends_synchronously(#[trigger] mg[j].1[k])
            ==> spec_async_model_max(best, mg, n, place)->0 >= mg[j].1[k].0,
    decreases n,
{
    if n > 0 {
        lemma_model_max_covers(best, mg, n - 1, place);
        if spec_sync_source(mg[n - 1].1) == Some(true) {
            lemma_routes_max_covers(mg[n - 1].1, mg[n - 1].1.len() as int, mg, place, mg.len());
        }
    }
}

proof fn lemma_list_max_covers(gl: GraphListView, n: int, place: Seq<(String, Point)>)
    requires
        0 <= n <= gl.len(),
        spec_async_list_max(gl, n, place) is Some,
    ensures
        spec_async_list_max(gl, n, place)->0 >= 0,
        forall|i: int, j: int, k: int| 0 <= i < n && 0 <= j < gl[i].1.len() && 0 <= k < gl[i].1[j].1.len()
            && spec_sync_source(gl[i].1[j].1) == Some(true) && ends_synchronously(#[trigger] gl[i].1[j].1[k])
            ==> spec_async_list_max(gl, n, place)->0 >= gl[i].1[j].1[k].0,
    decreases n,
{
    if n > 0 {
        lemma_list_max_covers(gl, n - 1, place);
        let b = spec_async_list_max(gl, n - 1, place)->0;
        lemma_model_max_covers(b, gl[n - 1].1, gl[n - 1].1.len() as int, place);
    }
}

/// The asynchronous inter-latch critical path is at least as long as every
/// route that leaves a latched source and arrives at a latched sink.
pub proof fn law_async_covers_latch_to_latch_routes(gl: GraphListView, place: Seq<(String, Point)>)
    requires
        spec_async_inter_latch(gl, place) is Some,
    ensures
        forall|i: int, j: int, k: int| 0 <= i < gl.len() && 0 <= j < gl[i].1.len() && 0 <= k < gl[i].1[j].1.len()
            && spec_sync_source(gl[i].1[j].1) == Some(true) && ends_synchronously(#[trigger] gl[i].1[j].1[k])
            ==> spec_async_inter_latch(gl, place)->0 >= gl[i].1[j].1[k].0,
{
    lemma_list_max_covers(gl, gl.len() as int, place);
}

/// Route `r` of a net explored with `fuel` has at most `c` links: it ends at a
/// sink, a route to a latched sink is one link, and a route to an unlatched
/// block is one link more than the paths through the net that block drives.
pub open spec fn route_links_at_most(r: (u32, EventSeq), mg: ModelGraphView, place: Seq<(String, Point)>, fuel: nat, c: int) -> bool {
    &&& r.1.len() > 0
    &&& r.1.last().1 is SyncSinkEvent ==> c >= 1
    &&& r.1.last().1 is AsyncSinkEvent ==> {
        &&& fuel > 0
        &&& spec_sink_net(r.1, mg, place) matches Some(sub)
        &&& spec_sync_routes_max(sub, sub.len() as int, mg, place, (fuel - 1) as nat) matches Some(d)
        &&& c >= 1 + d
    }
}

proof fn lemma_sync_path_count_unfold(r: (u32, EventSeq), mg: ModelGraphView, place: Seq<(String, Point)>, fuel: nat)
    ensures
        r.1.len() > 0 && fuel > 0 ==> (spec_sink_net(r.1, mg, place) matches Some(sub) ==>
            spec_sync_path_count(sub, mg, place, (fuel - 1) as nat)
                == spec_sync_routes_max(sub, sub.len() as int, mg, place, (fuel - 1) as nat)),
{
}

proof fn lemma_async_path_delay_unfold(r: (u32, EventSeq), mg: ModelGraphView, place: Seq<(String, Point)>, fuel: nat)
    ensures
        r.1.len() > 0 && fuel > 0 ==> (spec_sink_net(r.1, mg, place) matches Some(sub) ==>
            spec_async_path_delay(r.0 as int, sub, mg, place, (fuel - 1) as nat)
                == match spec_async_routes_max(sub, sub.len() as int, mg, place, (fuel - 1) as nat) {
                    None => None,
                    Some(m) => if r.0 + m <= u32::MAX { Some(r.0 + m) } else { None },
                }),
{
}

proof fn lemma_sync_routes_covers(ng: NetGraphView, n: int, mg: ModelGraphView, place: Seq<(String, Point)>, fuel: nat)
    requires
        0 <= n <= ng.len(),
        spec_sync_routes_max(ng, n, mg, place, fuel) is Some,
    ensures
        spec_sync_routes_max(ng, n, mg, place, fuel)->0 >= 0,
        forall|k: int| 0 <= k < n ==> #[trigger] route_links_at_most(ng[k], mg, place, fuel,
            spec_sync_routes_max(ng, n, mg, place, fuel)->0),
    decreases n,
{
    if n > 0 {
        lemma_sync_routes_covers(ng, n - 1, mg, place, fuel);
        lemma_sync_path_count_unfold(ng[n - 1], mg, place, fuel);
        let m0 = spec_sync_routes_max(ng, n - 1, mg, place, fuel)->0;
        let m1 = spec_sync_routes_max(ng, n, mg, place, fuel)->0;
        assert(m1 >= m0);
        assert forall|k: int| 0 <= k < n implies #[trigger] route_links_at_most(ng[k], mg, place, fuel, m1) by {
            if k < n - 1 {
                assert(route_links_at_most(ng[k], mg, place, fuel, m0));
            }
        }
    }
}

proof fn lemma_sync_model_covers(mg: ModelGraphView, n: int, place: Seq<(String, Point)>)
    requires
        0 <= n <= mg.len(),
        spec_sync_model_max(mg, n, place) is Some,
    ensures
        spec_sync_model_max(mg, n, place)->0 >= 0,
        forall|j: int| 0 <= j < n && spec_sync_source(mg[j].1) == Some(true)
            ==> (spec_sync_path_count(#[trigger] mg[j].1, mg, place, mg.len()) matches Some(c)
                && spec_sync_model_max(mg, n, place)->0 >= c),
    decreases n,
{
    if n > 0 {
        lemma_sync_model_covers(mg, n - 1, place);
    }
}

proof fn lemma_sync_list_covers(gl: GraphListView, n: int, place: Seq<(String, Point)>)
    requires
        0 <= n <= gl.len(),
        spec_sync_list_max(gl, n, place) is Some,
    ensures
        spec_sync_list_max(gl, n, place)->0 >= 0,
        forall|i: int| 0 <= i < n
            ==> (spec_sync_model_max(#[trigger] gl[i].1, gl[i].1.len() as int, place) matches Some(c)
                && spec_sync_list_max(gl, n, place)->0 >= c),
    decreases n,
{
    if n > 0 {
        lemma_sync_list_covers(gl, n - 1, place);
    }
}

/// The latch-to-latch link count bounds every route of every net that starts
/// at a synchronous source: one link for a route to a latched sink, one more
/// than the paths through the driven net for a route to an unlatched block.
pub proof fn law_sync_count_covers_routes(gl: GraphListView, place: Seq<(String, Point)>)
    requires
        spec_sync_latch_count(gl, place) is Some,
    ensures
        spec_sync_latch_count(gl, place)->0 >= 0,
        forall|i: int, j: int, k: int| 0 <= i < gl.len() && 0 <= j < gl[i].1.len() && 0 <= k < gl[i].1[j].1.len()
            && spec_sync_source(gl[i].1[j].1) == Some(true)
            ==> route_links_at_most(#[trigger] gl[i].1[j].1[k], gl[i].1, place, gl[i].1.len(),
                spec_sync_latch_count(gl, place)->0),
{
    let total = spec_sync_latch_count(gl, place)->0;
    lemma_sync_list_covers(gl, gl.len() as int, place);
    assert forall|i: int, j: int, k: int| 0 <= i < gl.len() && 0 <= j < gl[i].1.len() && 0 <= k < gl[i].1[j].1.len()
        && spec_sync_source(gl[i].1[j].1) == Some(true)
        implies route_links_at_most(#[trigger] gl[i].1[j].1[k], gl[i].1, place, gl[i].1.len(), total) by {
        let mg = gl[i].1;
        let ng = mg[j].1;
        assert(spec_sync_model_max(gl[i].1, gl[i].1.len() as int, place) is Some);
        lemma_sync_model_covers(mg, mg.len() as int, place);
        assert(spec_sync_path_count(mg[j].1, mg, place, mg.len()) is Some);
        lemma_sync_routes_covers(ng, ng.len() as int, mg, place, mg.len());
        let c = spec_sync_routes_max(ng, ng.len() as int, mg, place, mg.len())->0;
        assert(route_links_at_most(ng[k], mg, place, mg.len(), c));
    }
}

// ---------------------------------------------------------------------------
// Critical paths are single paths
// ---------------------------------------------------------------------------

/// Route `r` continues a latch-to-latch path with delay exactly `v`: its own
/// delay when it reaches a latched sink, its delay plus the longest
/// continuation through the net of the unlatched block it reaches otherwise.
pub open spec fn route_delay_is(r: (u32, EventSeq), mg: ModelGraphView, place: Seq<(String, Point)>, fuel: nat, v: int) -> bool {
    &&& r.1.len() > 0
    &&& {
        ||| r.1.last().1 is SyncSinkEvent && v == r.0
        ||| r.1.last().1 is AsyncSinkEvent && fuel > 0
            && (spec_sink_net(r.1, mg, place) matches Some(sub)
                && (spec_async_routes_max(sub, sub.len() as int, mg, place, (fuel - 1) as nat) matches Some(m)
                    && v == r.0 + m))
    }
}

/// Every latch-to-latch continuation that route `r` starts has delay at most `m`.
pub open spec fn route_delay_at_most(r: (u32, EventSeq), mg: ModelGraphView, place: Seq<(String, Point)>, fuel: nat, m: int) -> bool {
    &&& r.1.len() > 0
    &&& r.1.last().1 is SyncSinkEvent ==> r.0 <= m
    &&& r.1.last().1 is AsyncSinkEvent ==> {
        &&& fuel > 0
        &&& spec_sink_net(r.1, mg, place) matches Some(sub)
        &&& spec_async_routes_max(sub, sub.len() as int, mg, place, (fuel - 1) as nat) matches Some(c)
        &&& r.0 + c <= m
    }
}

/// The longest continuation through a net is the continuation of one of its
/// routes (or `0` when no route reaches a sink), and no route continues
/// further: a maximum, not a sum, of the routes' continuations.
pub proof fn law_async_net_delay_is_one_route(ng: NetGraphView, n: int, mg: ModelGraphView, place: Seq<(String, Point)>, fuel: nat)
    requires
        0 <= n <= ng.len(),
        spec_async_routes_max(ng, n, mg, place, fuel) is Some,
    ensures
        ({
            let m = spec_async_routes_max(ng, n, mg, place, fuel)->0;
            &&& m >= 0
            &&& m == 0 || exists|k: int| 0 <= k < n && #[trigger] route_delay_is(ng[k], mg, place, fuel, m)
            &&& forall|k: int| 0 <= k < n ==> #[trigger] route_delay_at_most(ng[k], mg, place, fuel, m)
        }),
    decreases n,
{
    if n > 0 {
        law_async_net_delay_is_one_route(ng, n - 1, mg, place, fuel);
        lemma_async_path_delay_unfold(ng[n - 1], mg, place, fuel);
        let m0 = spec_async_routes_max(ng, n - 1, mg, place, fuel)->0;
        let m1 = spec_async_routes_max(ng, n, mg, place, fuel)->0;
        assert(m1 >= m0);
        assert forall|k: int| 0 <= k < n implies #[trigger] route_delay_at_most(ng[k], mg, place, fuel, m1) by {
            if k < n - 1 {
                assert(route_delay_at_most(ng[k], mg, place, fuel, m0));
            }
        }
        if m1 != 0 {
            if m1 == m0 {
                let k = choose|k: int| 0 <= k < n - 1 && #[trigger] route_delay_is(ng[k], mg, place, fuel, m0);
                assert(route_delay_is(ng[k], mg, place, fuel, m1));
            } else {
                assert(route_delay_is(ng[n - 1], mg, place, fuel, m1));
            }
        }
    }
}

proof fn lemma_async_model_attained(best: int, mg: ModelGraphView, n: int, place: Seq<(String, Point)>)
    requires
        0 <= n <= mg.len(),
        best >= 0,
        spec_async_model_max(best, mg, n, place) is Some,
    ensures
        ({
            let b = spec_async_model_max(best, mg, n, place)->0;
            &&& b >= best
            &&& b == best || exists|j: int| 0 <= j < n && spec_sync_source(mg[j].1) == Some(true)
                && #[trigger] spec_async_routes_max(mg[j].1, mg[j].1.len() as int, mg, place, mg.len()) == Some(b)
            &&& forall|j: int| 0 <= j < n && spec_sync_source(mg[j].1) == Some(true)
                ==> (#[trigger] spec_async_routes_max(mg[j].1, mg[j].1.len() as int, mg, place, mg.len()) matches Some(v) && v <= b)
        }),
    decreases n,
{
    if n > 0 {
        lemma_async_model_attained(best, mg, n - 1, place);
        let b0 = spec_async_model_max(best, mg, n - 1, place)->0;
        let b1 = spec_async_model_max(best, mg, n, place)->0;
        if b1 != best && b1 == b0 {
            let j = choose|j: int| 0 <= j < n - 1 && spec_sync_source(mg[j].1) == Some(true)
                && #[trigger] spec_async_routes_max(mg[j].1, mg[j].1.len() as int, mg, place, mg.len()) == Some(b0);
            assert(spec_async_routes_max(mg[j].1, mg[j].1.len() as int, mg, place, mg.len()) == Some(b1));
        }
    }
}

proof fn lemma_async_list_attained(gl: GraphListView, n: int, place: Seq<(String, Point)>)
    requires
        0 <= n <= gl.len(),
        spec_async_list_max(gl, n, place) is Some,
    ensures
        ({
            let d = spec_async_list_max(gl, n, place)->0;
            &&& d >= 0
            &&& d == 0 || exists|i: int, j: int| 0 <= i < n && 0 <= j < gl[i].1.len() && spec_sync_source(gl[i].1[j].1) == Some(true)
                && #[trigger] spec_async_routes_max(gl[i].1[j].1, gl[i].1[j].1.len() as int, gl[i].1, place, gl[i].1.len()) == Some(d)
            &&& forall|i: int, j: int| 0 <= i < n && 0 <= j < gl[i].1.len() && spec_sync_source(gl[i].1[j].1) == Some(true)
                ==> (#[trigger] spec_async_routes_max(gl[i].1[j].1, gl[i].1[j].1.len() as int, gl[i].1, place, gl[i].1.len()) matches Some(v) && v <= d)
        }),
    decreases n,
{
    if n > 0 {
        lemma_async_list_attained(gl, n - 1, place);
        let b = spec_async_list_max(gl, n - 1, place)->0;
        let d = spec_async_list_max(gl, n, place)->0;
        let mg = gl[n - 1].1;
        lemma_async_model_attained(b, mg, mg.len() as int, place);
        if d != 0 {
            if d == b {
                let (i, j) = choose|i: int, j: int| 0 <= i < n - 1 && 0 <= j < gl[i].1.len() && spec_sync_source(gl[i].1[j].1) == Some(true)
                    && #[trigger] spec_async_routes_max(gl[i].1[j].1, gl[i].1[j].1.len() as int, gl[i].1, place, gl[i].1.len()) == Some(b);
                assert(spec_async_routes_max(gl[i].1[j].1, gl[i].1[j].1.len() as int, gl[i].1, place, gl[i].1.len()) == Some(d));
            } else {
                let j = choose|j: int| 0 <= j < mg.len() && spec_sync_source(mg[j].1) == Some(true)
                    && #[trigger] spec_async_routes_max(mg[j].1, mg[j].1.len() as int, mg, place, mg.len()) == Some(d);
                assert(spec_async_routes_max(gl[n - 1].1[j].1, gl[n - 1].1[j].1.len() as int, gl[n - 1].1, place, gl[n - 1].1.len()) == Some(d));
            }
        }
        assert forall|i: int, j: int| 0 <= i < n && 0 <= j < gl[i].1.len() && spec_sync_source(gl[i].1[j].1) == Some(true)
            implies (#[trigger] spec_async_routes_max(gl[i].1[j].1, gl[i].1[j].1.len() as int, gl[i].1, place, gl[i].1.len()) matches Some(v) && v <= d) by {
            if i == n - 1 {
                assert(spec_async_routes_max(mg[j].1, mg[j].1.len() as int, mg, place, mg.len()) is Some);
            }
        }
    }
}

/// The asynchronous inter-latch critical delay is the delay of one single
/// latch-to-latch path: it is the continuation of one route of a net with a
/// synchronous source (or `0` when there is none), and no such route
/// continues further. Delays of separate paths are never added up.
pub proof fn law_async_inter_latch_is_one_path(gl: GraphListView, place: Seq<(String, Point)>)
    requires
        spec_async_inter_latch(gl, place) is Some,
    ensures
        ({
            let d = spec_async_inter_latch(gl, place)->0;
            &&& d == 0 || exists|i: int, j: int, k: int| 0 <= i < gl.len() && 0 <= j < gl[i].1.len() && 0 <= k < gl[i].1[j].1.len()
                && spec_sync_source(gl[i].1[j].1) == Some(true)
                && #[trigger] route_delay_is(gl[i].1[j].1[k], gl[i].1, place, gl[i].1.len(), d)
            &&& forall|i: int, j: int, k: int| 0 <= i < gl.len() && 0 <= j < gl[i].1.len() && 0 <= k < gl[i].1[j].1.len()
                && spec_sync_source(gl[i].1[j].1) == Some(true)
                ==> #[trigger] route_delay_at_most(gl[i].1[j].1[k], gl[i].1, place, gl[i].1.len(), d)
        }),
{
    let d = spec_async_inter_latch(gl, place)->0;
    lemma_async_list_attained(gl, gl.len() as int, place);
    if d != 0 {
        let (i, j) = choose|i: int, j: int| 0 <= i < gl.len() && 0 <= j < gl[i].1.len() && spec_sync_source(gl[i].1[j].1) == Some(true)
            && #[trigger] spec_async_routes_max(gl[i].1[j].1, gl[i].1[j].1.len() as int, gl[i].1, place, gl[i].1.len()) == Some(d);
        let ng = gl[i].1[j].1;
        law_async_net_delay_is_one_route(ng, ng.len() as int, gl[i].1, place, gl[i].1.len());
        let k = choose|k: int| 0 <= k < ng.len() && #[trigger] route_delay_is(ng[k], gl[i].1, place, gl[i].1.len(), d);
        assert(route_delay_is(gl[i].1[j].1[k], gl[i].1, place, gl[i].1.len(), d));
    }
    assert forall|i: int, j: int, k: int| 0 <= i < gl.len() && 0 <= j < gl[i].1.len() && 0 <= k < gl[i].1[j].1.len()
        && spec_sync_source(gl[i].1[j].1) == Some(true)
        implies #[trigger] route_delay_at_most(gl[i].1[j].1[k], gl[i].1, place, gl[i].1.len(), d) by {
        let ng = gl[i].1[j].1;
        assert(spec_async_routes_max(gl[i].1[j].1, gl[i].1[j].1.len() as int, gl[i].1, place, gl[i].1.len()) is Some);
        law_async_net_delay_is_one_route(ng, ng.len() as int, gl[i].1, place, gl[i].1.len());
        let v = spec_async_routes_max(ng, ng.len() as int, gl[i].1, place, gl[i].1.len())->0;
        assert(route_delay_at_most(ng[k], gl[i].1, place, gl[i].1.len(), v));
    }
}

/// Route `r` starts a latch-to-latch path of exactly `c` links: one when it
/// reaches a latched sink, one more than the paths through the net of the
/// unlatched block it reaches otherwise.
pub open spec fn route_links_are(r: (u32, EventSeq), mg: ModelGraphView, place: Seq<(String, Point)>, fuel: nat, c: int) -> bool {
    &&& r.1.len() > 0
    &&& {
        ||| r.1.last().1 is SyncSinkEvent && c == 1
        ||| r.1.last().1 is AsyncSinkEvent && fuel > 0
            && (spec_sink_net(r.1, mg, place) matches Some(sub)
                && (spec_sync_routes_max(sub, sub.len() as int, mg, place, (fuel - 1) as nat) matches Some(d) && c == 1 + d))
    }
}

/// The number of links of the paths through a net is that of one of its
/// routes (or `0` when no route reaches a sink), and no route has more: a
/// maximum, not a sum, over the routes.
pub proof fn law_sync_net_count_is_one_route(ng: NetGraphView, n: int, mg: ModelGraphView, place: Seq<(String, Point)>, fuel: nat)
    requires
        0 <= n <= ng.len(),
        spec_sync_routes_max(ng, n, mg, place, fuel) is Some,
    ensures
        ({
            let c = spec_sync_routes_max(ng, n, mg, place, fuel)->0;
            &&& c >= 0
            &&& c == 0 || exists|k: int| 0 <= k < n && #[trigger] route_links_are(ng[k], mg, place, fuel, c)
            &&& forall|k: int| 0 <= k < n ==> #[trigger] route_links_at_most(ng[k], mg, place, fuel, c)
        }),
    decreases n,
{
    if n > 0 {
        law_sync_net_count_is_one_route(ng, n - 1, mg, place, fuel);
        lemma_sync_routes_covers(ng, n, mg, place, fuel);
        lemma_sync_path_count_unfold(ng[n - 1], mg, place, fuel);
        let c0 = spec_sync_routes_max(ng, n - 1, mg, place, fuel)->0;
        let c1 = spec_sync_routes_max(ng, n, mg, place, fuel)->0;
        if c1 != 0 {
            if c1 == c0 {
                let k = choose|k: int| 0 <= k < n - 1 && #[trigger] route_links_are(ng[k], mg, place, fuel, c0);
                assert(route_links_are(ng[k], mg, place, fuel, c1));
            } else {
                assert(route_links_are(ng[n - 1], mg, place, fuel, c1));
            }
        }
    }
}

proof fn lemma_sync_model_attained(mg: ModelGraphView, n: int, place: Seq<(String, Point)>)
    requires
        0 <= n <= mg.len(),
        spec_sync_model_max(mg, n, place) is Some,
    ensures
        ({
            let c = spec_sync_model_max(mg, n, place)->0;
            c == 0 || exists|j: int| 0 <= j < n && spec_sync_source(mg[j].1) == Some(true)
                && #[trigger] spec_sync_path_count(mg[j].1, mg, place, mg.len()) == Some(c)
        }),
    decreases n,
{
    if n > 0 {
        lemma_sync_model_attained(mg, n - 1, place);
        let c0 = spec_sync_model_max(mg, n - 1, place)->0;
        let c1 = spec_sync_model_max(mg, n, place)->0;
        if c1 != 0 && c1 == c0 {
            let j = choose|j: int| 0 <= j < n - 1 && spec_sync_source(mg[j].1) == Some(true)
                && #[trigger] spec_sync_path_count(mg[j].1, mg, place, mg.len()) == Some(c0);
            assert(spec_sync_path_count(mg[j].1, mg, place, mg.len()) == Some(c1));
        }
    }
}

proof fn lemma_sync_list_attained(gl: GraphListView, n: int, place: Seq<(String, Point)>)
    requires
        0 <= n <= gl.len(),
        spec_sync_list_max(gl, n, place) is Some,
    ensures
        ({
            let c = spec_sync_list_max(gl, n, place)->0;
            c == 0 || exists|i: int, j: int| 0 <= i < n && 0 <= j < gl[i].1.len() && spec_sync_source(gl[i].1[j].1) == Some(true)
                && #[trigger] spec_sync_path_count(gl[i].1[j].1, gl[i].1, place, gl[i].1.len()) == Some(c)
        }),
    decreases n,
{
    if n > 0 {
        lemma_sync_list_attained(gl, n - 1, place);
        let c0 = spec_sync_list_max(gl, n - 1, place)->0;
        let c1 = spec_sync_list_max(gl, n, place)->0;
        let mg = gl[n - 1].1;
        lemma_sync_model_attained(mg, mg.len() as int, place);
        if c1 != 0 {
            if c1 == c0 {
                let (i, j) = choose|i: int, j: int| 0 <= i < n - 1 && 0 <= j < gl[i].1.len() && spec_sync_source(gl[i].1[j].1) == Some(true)
                    && #[trigger] spec_sync_path_count(gl[i].1[j].1, gl[i].1, place, gl[i].1.len()) == Some(c0);
                assert(spec_sync_path_count(gl[i].1[j].1, gl[i].1, place, gl[i].1.len()) == Some(c1));
            } else {
                let j = choose|j: int| 0 <= j < mg.len() && spec_sync_source(mg[j].1) == Some(true)
                    && #[trigger] spec_sync_path_count(mg[j].1, mg, place, mg.len()) == Some(c1);
                assert(spec_sync_path_count(gl[n - 1].1[j].1, gl[n - 1].1, place, gl[n - 1].1.len()) == Some(c1));
            }
        }
    }
}

/// The latch-to-latch link count is the number of links of one single path:
/// that of one route of a net with a synchronous source (or `0` when there is
/// none), with no route starting a path of more links (see
/// `law_sync_count_covers_routes`). Counts of separate paths are never added.
pub proof fn law_sync_count_is_one_path(gl: GraphListView, place: Seq<(String, Point)>)
    requires
        spec_sync_latch_count(gl, place) is Some,
    ensures
        ({
            let c = spec_sync_latch_count(gl, place)->0;
            c == 0 || exists|i: int, j: int, k: int| 0 <= i < gl.len() && 0 <= j < gl[i].1.len() && 0 <= k < gl[i].1[j].1.len()
                && spec_sync_source(gl[i].1[j].1) == Some(true)
                && #[trigger] route_links_are(gl[i].1[j].1[k], gl[i].1, place, gl[i].1.len(), c)
        }),
{
    let c = spec_sync_latch_count(gl, place)->0;
    lemma_sync_list_attained(gl, gl.len() as int, place);
    if c != 0 {
        let (i, j) = choose|i: int, j: int| 0 <= i < gl.len() && 0 <= j < gl[i].1.len() && spec_sync_source(gl[i].1[j].1) == Some(true)
            && #[trigger] spec_sync_path_count(gl[i].1[j].1, gl[i].1, place, gl[i].1.len()) == Some(c);
        let ng = gl[i].1[j].1;
        law_sync_net_count_is_one_route(ng, ng.len() as int, gl[i].1, place, gl[i].1.len());
        let k = choose|k: int| 0 <= k < ng.len() && #[trigger] route_links_are(ng[k], gl[i].1, place, gl[i].1.len(), c);
        assert(route_links_are(gl[i].1[j].1[k], gl[i].1, place, gl[i].1.len(), c));
    }
}

// ---------------------------------------------------------------------------
// Where branches end in the delay event graph
// ---------------------------------------------------------------------------

proof fn lemma_net_routes_sinks(branches: Seq<Route>, n: int, src: (u32, RouteEventEnum),
    latches: Seq<Seq<char>>, place: Seq<(String, Point)>, cfg: Config)
    requires
        0 <= n,
        spec_net_routes(branches, n, src, latches, place, cfg) is Some,
    ensures
        ({
            let ng = spec_net_routes(branches, n, src, latches, place, cfg)->0;
            &&& ng.len() == n
            &&& forall|k: int| 0 <= k < n ==> (spec_sink_entry(#[trigger] branches[k], latches, place, cfg) matches Some(e)
                && ng[k].1.len() > 0 && ng[k].1.last() == e)
        }),
    decreases n,
{
    if n > 0 {
        lemma_net_routes_sinks(branches, n - 1, src, latches, place, cfg);
        let prior = spec_net_routes(branches, n - 1, src, latches, place, cfg)->0;
        let branch = branches[n - 1];
        let route = spec_branch_route(prior, branch, src, latches, place, cfg)->0;
        let tracks = branch.tracks@;
        let seed = if branch.from_opin {
            Some(seq![src, (0u32, RouteEventEnum::TrackEntryEvent(RouteEvent { point: tracks[0].xy }))])
        } else {
            spec_branch_prefix(prior, tracks[0].xy, 0)
        };
        let switches = Seq::new((tracks.len() - 1) as nat, |i: int|
            (cfg.fpga_delay_trackswitch, RouteEventEnum::TrackSwitchEvent(RouteEvent { point: tracks[i + 1].xy })));
        let sink = spec_sink_entry(branch, latches, place, cfg)->0;
        assert(route == seed->0 + switches + seq![sink]);
        assert(route.last() == sink);
        let ng = spec_net_routes(branches, n, src, latches, place, cfg)->0;
        assert forall|k: int| 0 <= k < n implies (spec_sink_entry(#[trigger] branches[k], latches, place, cfg) matches Some(e)
            && ng[k].1.len() > 0 && ng[k].1.last() == e) by {
            if k < n - 1 {
                assert(ng[k] == prior[k]);
            }
        }
    }
}

proof fn lemma_model_graph_nets(nets: Seq<RouteNet>, n: int, latches: Seq<Seq<char>>, place: Seq<(String, Point)>, cfg: Config)
    requires
        0 <= n,
        spec_model_graph(nets, n, latches, place, cfg) is Some,
    ensures
        ({
            let mg = spec_model_graph(nets, n, latches, place, cfg)->0;
            &&& mg.len() == n
            &&& forall|j: int| 0 <= j < n ==> (spec_net_graph(#[trigger] nets[j], latches, place, cfg) matches Some(g) && mg[j].1 == g)
        }),
    decreases n,
{
    if n > 0 {
        lemma_model_graph_nets(nets, n - 1, latches, place, cfg);
        let prev = spec_model_graph(nets, n - 1, latches, place, cfg)->0;
        let mg = spec_model_graph(nets, n, latches, place, cfg)->0;
        assert forall|j: int| 0 <= j < n implies (spec_net_graph(#[trigger] nets[j], latches, place, cfg) matches Some(g) && mg[j].1 == g) by {
            if j < n - 1 {
                assert(mg[j] == prev[j]);
            }
        }
    }
}

proof fn lemma_graph_list_models(models: Seq<Model>, n: int, nets: Seq<RouteNet>, place: Seq<(String, Point)>, cfg: Config)
    requires
        0 <= n,
        spec_graph_list(models, n, nets, place, cfg) is Some,
    ensures
        ({
            let gl = spec_graph_list(models, n, nets, place, cfg)->0;
            &&& gl.len() == n
            &&& forall|i: int| 0 <= i < n ==> (spec_model_graph(nets, nets.len() as int, spec_latches(#[trigger] models[i]), place, cfg) matches Some(g)
                && gl[i].1 == g)
        }),
    decreases n,
{
    if n > 0 {
        lemma_graph_list_models(models, n - 1, nets, place, cfg);
        let prev = spec_graph_list(models, n - 1, nets, place, cfg)->0;
        let gl = spec_graph_list(models, n, nets, place, cfg)->0;
        assert forall|i: int| 0 <= i < n implies (spec_model_graph(nets, nets.len() as int, spec_latches(#[trigger] models[i]), place, cfg) matches Some(g)
            && gl[i].1 == g) by {
            if i < n - 1 {
                assert(gl[i] == prev[i]);
            }
        }
    }
}

/// In the delay event graph of model `i`, the route of branch `k` of net `j`
/// ends at that branch's sink: with a synchronous sink event when the sink is
/// a pad or a block that the model latches, and with an asynchronous sink
/// event only when it is an unlatched logic element.
pub proof fn law_delay_graph_sinks(models: Seq<Model>, nets: Seq<RouteNet>, place: Seq<(String, Point)>, cfg: Config,
    i: int, j: int, k: int)
    requires
        spec_delay_event_graph(models, nets, place, cfg) is Some,
        0 <= i < models.len(),
        0 <= j < nets.len(),
        0 <= k < nets[j].route_tree@.len(),
    ensures
        ({
            let gl = spec_delay_event_graph(models, nets, place, cfg)->0;
            let s = nets[j].route_tree@[k].sink;
            &&& s is Some
            &&& spec_name_at(place, (s->0).0) is Some
            &&& k < gl[i].1[j].1.len() && gl[i].1[j].1[k].1.len() > 0
            &&& ({
                let last = gl[i].1[j].1[k].1.last();
                let ev = RouteEvent { point: (s->0).0 };
                let name = spec_name_at(place, (s->0).0)->0;
                &&& (s->0).1 == NodeMetaType::Pad
                    ==> last == (cfg.fpga_delay_pad_enter, RouteEventEnum::SyncSinkEvent(ev))
                &&& (s->0).1 != NodeMetaType::Pad && spec_latches(models[i]).contains(name)
                    ==> last == (cfg.fpga_delay_ble_enter, RouteEventEnum::SyncSinkEvent(ev))
                &&& (s->0).1 != NodeMetaType::Pad && !spec_latches(models[i]).contains(name)
                    ==> last == (cfg.fpga_delay_ble_enter, RouteEventEnum::AsyncSinkEvent(ev))
            })
        }),
{
    let gl = spec_delay_event_graph(models, nets, place, cfg)->0;
    lemma_graph_list_models(models, models.len() as int, nets, place, cfg);
    let latches = spec_latches(models[i]);
    assert(spec_model_graph(nets, nets.len() as int, spec_latches(models[i]), place, cfg) is Some);
    lemma_model_graph_nets(nets, nets.len() as int, latches, place, cfg);
    let net = nets[j];
    assert(spec_net_graph(nets[j], latches, place, cfg) is Some);
    let src = spec_source_entry(net, latches, place, cfg)->0;
    lemma_net_routes_sinks(net.route_tree@, net.route_tree@.len() as int, src, latches, place, cfg);
    let mg = spec_model_graph(nets, nets.len() as int, latches, place, cfg)->0;
    let ng = spec_net_routes(net.route_tree@, net.route_tree@.len() as int, src, latches, place, cfg)->0;
    assert(gl[i].1 == mg);
    assert(mg[j].1 == ng);
    assert(spec_sink_entry(net.route_tree@[k], latches, place, cfg) is Some);
    assert(ng[k].1.last() == spec_sink_entry(net.route_tree@[k], latches, place, cfg)->0);
}

proof fn lemma_first_event_in_range(route: EventSeq, p: Point, i: int)
    requires
        0 <= i,
    ensures
        spec_first_event_at(route, p, i) matches Some(j) ==> i <= j < route.len(),
    decreases route.len() - i,
{
    if i < route.len() {
        lemma_first_event_in_range(route, p, i + 1);
    }
}

proof fn lemma_branch_prefix_starts(prior: NetGraphView, p: Point, k: int, src: (u32, RouteEventEnum))
    requires
        0 <= k,
        forall|m: int| 0 <= m < prior.len() ==> (#[trigger] prior[m]).1.len() > 0 && prior[m].1[0] == src,
    ensures
        spec_branch_prefix(prior, p, k) matches Some(pre) ==> pre.len() > 0 && pre[0] == src,
    decreases prior.len() - k,
{
    if k < prior.len() {
        lemma_first_event_in_range(prior[k].1, p, 0);
        lemma_branch_prefix_starts(prior, p, k + 1, src);
        assert(prior[k].1.len() > 0 && prior[k].1[0] == src);
    }
}

proof fn lemma_net_routes_sources(branches: Seq<Route>, n: int, src: (u32, RouteEventEnum),
    latches: Seq<Seq<char>>, place: Seq<(String, Point)>, cfg: Config)
    requires
        0 <= n,
        spec_net_routes(branches, n, src, latches, place, cfg) is Some,
    ensures
        ({
            let ng = spec_net_routes(branches, n, src, latches, place, cfg)->0;
            &&& ng.len() == n
            &&& forall|k: int| 0 <= k < n ==> (#[trigger] ng[k]).1.len() > 0 && ng[k].1[0] == src
        }),
    decreases n,
{
    if n > 0 {
        lemma_net_routes_sources(branches, n - 1, src, latches, place, cfg);
        let prior = spec_net_routes(branches, n - 1, src, latches, place, cfg)->0;
        let branch = branches[n - 1];
        let route = spec_branch_route(prior, branch, src, latches, place, cfg)->0;
        let tracks = branch.tracks@;
        lemma_branch_prefix_starts(prior, tracks[0].xy, 0, src);
        let seed = if branch.from_opin {
            Some(seq![src, (0u32, RouteEventEnum::TrackEntryEvent(RouteEvent { point: tracks[0].xy }))])
        } else {
            spec_branch_prefix(prior, tracks[0].xy, 0)
        };
        let switches = Seq::new((tracks.len() - 1) as nat, |i: int|
            (cfg.fpga_delay_trackswitch, RouteEventEnum::TrackSwitchEvent(RouteEvent { point: tracks[i + 1].xy })));
        let sink = spec_sink_entry(branch, latches, place, cfg)->0;
        assert(route == seed->0 + switches + seq![sink]);
        assert(route[0] == src);
        let ng = spec_net_routes(branches, n, src, latches, place, cfg)->0;
        assert forall|k: int| 0 <= k < n implies (#[trigger] ng[k]).1.len() > 0 && ng[k].1[0] == src by {
            if k < n - 1 {
                assert(ng[k] == prior[k]);
            }
        }
    }
}

/// In the delay event graph of model `i`, every route of net `j` starts at
/// the net's source: with a synchronous source event when the source is a
/// pad or a block that the model latches, and with an asynchronous source
/// event only when it is an unlatched logic element.
pub proof fn law_delay_graph_sources(models: Seq<Model>, nets: Seq<RouteNet>, place: Seq<(String, Point)>, cfg: Config,
    i: int, j: int, k: int)
    requires
        spec_delay_event_graph(models, nets, place, cfg) is Some,
        0 <= i < models.len(),
        0 <= j < nets.len(),
        0 <= k < nets[j].route_tree@.len(),
    ensures
        ({
            let gl = spec_delay_event_graph(models, nets, place, cfg)->0;
            let src = nets[j].src;
            &&& spec_name_at(place, src.0) is Some
            &&& k < gl[i].1[j].1.len() && gl[i].1[j].1[k].1.len() > 0
            &&& ({
                let first = gl[i].1[j].1[k].1[0];
                let ev = RouteEvent { point: src.0 };
                let name = spec_name_at(place, src.0)->0;
                &&& src.1 == NodeMetaType::Pad
                    ==> first == (cfg.fpga_delay_pad_exit, RouteEventEnum::SyncSourceEvent(ev))
                &&& src.1 != NodeMetaType::Pad && spec_latches(models[i]).contains(name)
                    ==> first == (cfg.fpga_delay_ble_exit, RouteEventEnum::SyncSourceEvent(ev))
                &&& src.1 != NodeMetaType::Pad && !spec_latches(models[i]).contains(name)
                    ==> first == (cfg.fpga_delay_ble_exit, RouteEventEnum::AsyncSourceEvent(ev))
            })
        }),
{
    let gl = spec_delay_event_graph(models, nets, place, cfg)->0;
    lemma_graph_list_models(models, models.len() as int, nets, place, cfg);
    let latches = spec_latches(models[i]);
    assert(spec_model_graph(nets, nets.len() as int, spec_latches(models[i]), place, cfg) is Some);
    lemma_model_graph_nets(nets, nets.len() as int, latches, place, cfg);
    let net = nets[j];
    assert(spec_net_graph(nets[j], latches, place, cfg) is Some);
    let src = spec_source_entry(net, latches, place, cfg)->0;
    lemma_net_routes_sources(net.route_tree@, net.route_tree@.len() as int, src, latches, place, cfg);
    let mg = spec_model_graph(nets, nets.len() as int, latches, place, cfg)->0;
    let ng = spec_net_routes(net.route_tree@, net.route_tree@.len() as int, src, latches, place, cfg)->0;
    assert(gl[i].1 == mg);
    assert(mg[j].1 == ng);
    assert(ng[k].1[0] == src);
}

} // verus!
