use vstd::prelude::*;
use vstd::string::*;
use vstd::arithmetic::power2::{pow2, lemma_pow2_unfold, lemma_pow2_pos};

verus! {

/// Project and architecture settings of one run.
///
/// Every index that the bitstream generator uses (connection block sections,
/// switch block sides, the size of a look-up table) is derived from these
/// values by the methods below.
pub struct Config {
    // project
    pub output_path: Option<String>,
    pub parameter_store: Vec<(String, String)>,
    pub dual_rail_mode: bool,
    pub blif_file: String,
    pub route_file: String,
    pub place_file: String,
    pub arch_file: Option<String>,
    pub bit_file: String,
    pub port_map_file: String,
    // architecture
    pub module_name: String,
    pub channel_width: u16,
    pub grid_width: u16,
    pub fpga_width: u16,
    pub n_rail: u16,
    pub lut_k: u16,
    pub ble_clk_en_size: u16,
    pub ble_local_clk_en_index: u16,
    pub ble_global_clk_en_index: u16,
    // timings
    pub fpga_delay_pad_exit: u32,
    pub fpga_delay_ble_exit: u32,
    pub fpga_delay_ble_enter: u32,
    pub fpga_delay_pad_enter: u32,
    pub fpga_delay_trackswitch: u32,
}

impl Config {
    /// The settings for which every derived index fits in a `u16`.
    pub open spec fn wf(&self) -> bool {
        &&& 1 <= self.channel_width
        &&& 1 <= self.n_rail
        &&& 12 * self.channel_width <= u16::MAX
        &&& 4 * self.channel_width * self.n_rail <= u16::MAX
        &&& self.lut_k < 16
        &&& pow2(self.lut_k as nat) + self.ble_clk_en_size <= u16::MAX
        &&& 3 * self.fpga_width <= u16::MAX
    }

    /// Whether the settings are well formed (see `wf`).
    pub fn fits(&self) -> (r: bool)
        ensures
            r == self.wf(),
    {
        let w = self.channel_width as u64;
        let rails = self.n_rail as u64;
        if w < 1 || rails < 1 || 12 * w > 65535 || self.lut_k >= 16 || 3 * (self.fpga_width as u64) > 65535 {
            return false;
        }
        assert(w * rails <= 5461 * 65535) by (nonlinear_arith)
            requires w <= 5461, rails <= 65535;
        let prod: u64 = w * rails;
        assert(4 * w * rails == 4 * prod) by (nonlinear_arith)
            requires prod == w * rails;
        if 4 * prod > 65535 {
            return false;
        }
        let mut p: u64 = 1;
        let mut i: u16 = 0;
        assert(pow2(0) == 1) by { vstd::arithmetic::power2::lemma2_to64(); }
        while i < self.lut_k
            invariant
                i <= self.lut_k,
                self.lut_k < 16,
                p == pow2(i as nat),
                p <= 65536,
            decreases self.lut_k - i,
        {
            proof {
                lemma_pow2_unfold((i + 1) as nat);
                lemma_pow2_mono(i as nat + 1, 16);
                vstd::arithmetic::power2::lemma2_to64();
            }
            p = p * 2;
            i = i + 1;
        }
        p + self.ble_clk_en_size as u64 <= 65535
    }

    /// Number of tiles along each side of the FPGA.
    pub fn n_tiles(&self) -> (r: u16)
        ensures r == self.fpga_width,
    {
        self.fpga_width
    }

    /// Number of tracks in a routing channel.
    pub fn ch_width(&self) -> (r: u16)
        ensures r == self.channel_width,
    {
        self.channel_width
    }

    /// Highest track number of a channel.
    pub fn ch_max(&self) -> (r: u16)
        requires self.wf(),
        ensures r == self.channel_width - 1,
    {
        self.channel_width - 1
    }

    /// Start of the 'top in' section of a connection block.
    pub fn cb_top_in_idx(&self) -> (r: u16)
        requires self.wf(),
        ensures r == 3 * self.channel_width,
    {
        self.channel_width * 3
    }

    /// Start of the 'bottom in' section of a connection block.
    pub fn cb_bot_in_idx(&self) -> (r: u16)
        requires self.wf(),
        ensures r == 2 * self.channel_width,
    {
        self.channel_width * 2
    }

    /// Start of the 'top out' section of a connection block.
    pub fn cb_top_out_idx(&self) -> (r: u16)
        ensures r == self.channel_width,
    {
        self.channel_width
    }

    /// Start of the 'bottom out' section of a connection block.
    pub fn cb_bot_out_idx(&self) -> (r: u16)
        ensures r == 0,
    {
        0
    }

    /// First switch block port on the top side.
    pub fn sb_top_idx(&self) -> (r: u16)
        requires self.wf(),
        ensures r == 3 * self.channel_width,
    {
        self.channel_width * 3
    }

    /// First switch block port on the left side.
    pub fn sb_left_idx(&self) -> (r: u16)
        requires self.wf(),
        ensures r == 2 * self.channel_width,
    {
        self.channel_width * 2
    }

    /// First switch block port on the bottom side.
    pub fn sb_bot_idx(&self) -> (r: u16)
        ensures r == self.channel_width,
    {
        self.channel_width
    }

    /// First switch block port on the right side.
    pub fn sb_right_idx(&self) -> (r: u16)
        ensures r == 0,
    {
        0
    }

    /// First FPGA pad index on the top side.
    pub fn fpga_top_idx(&self) -> (r: u16)
        requires self.wf(),
        ensures r == 3 * self.fpga_width,
    {
        self.fpga_width * 3
    }

    /// First FPGA pad index on the left side.
    pub fn fpga_left_idx(&self) -> (r: u16)
        requires self.wf(),
        ensures r == 2 * self.fpga_width,
    {
        self.fpga_width * 2
    }

    /// First FPGA pad index on the bottom side.
    pub fn fpga_bot_idx(&self) -> (r: u16)
        ensures r == self.fpga_width,
    {
        self.fpga_width
    }

    /// First FPGA pad index on the right side.
    pub fn fpga_right_idx(&self) -> (r: u16)
        ensures r == 0,
    {
        0
    }

    /// Number of entries of a look-up table: two to the power `lut_k`.
    pub fn lut_size(&self) -> (r: u16)
        requires self.wf(),
        ensures r == pow2(self.lut_k as nat),
    {
        let mut r: u16 = 1;
        let mut i: u16 = 0;
        assert(pow2(0) == 1) by { vstd::arithmetic::power2::lemma2_to64(); }
        while i < self.lut_k
            invariant
                self.wf(),
                i <= self.lut_k,
                r == pow2(i as nat),
            decreases self.lut_k - i,
        {
            proof {
                lemma_pow2_unfold((i + 1) as nat);
                lemma_pow2_mono(i as nat + 1, self.lut_k as nat);
            }
            r = r * 2;
            i = i + 1;
        }
        r
    }

    /// Number of address bits of a basic logic element: the look-up table.
    pub fn ble_addr_size(&self) -> (r: u16)
        requires self.wf(),
        ensures r == pow2(self.lut_k as nat),
    {
        self.lut_size()
    }

    /// Number of programming bits of a basic logic element: the look-up table
    /// followed by the clock control bits.
    pub fn ble_size(&self) -> (r: u16)
        requires self.wf(),
        ensures r == pow2(self.lut_k as nat) + self.ble_clk_en_size,
    {
        self.ble_addr_size() + self.ble_clk_en_size
    }

    /// Number of programming bits of a switch block: three per input port.
    pub fn sw_blk_size(&self) -> (r: u16)
        requires self.wf(),
        ensures r == 3 * 4 * self.channel_width / 2,
    {
        3 * 4 * self.channel_width / 2
    }

    /// Number of programming bits of a connection block.
    pub fn con_blk_size(&self) -> (r: u16)
        requires self.wf(),
        ensures r == 4 * self.channel_width * self.n_rail,
    {
        proof {
            assert(4 * self.channel_width <= 4 * self.channel_width * self.n_rail) by (nonlinear_arith)
                requires self.n_rail >= 1;
        }
        4 * self.channel_width * self.n_rail
    }
}

proof fn lemma_pow2_mono(a: nat, b: nat)
    requires a <= b,
    ensures pow2(a) <= pow2(b),
    decreases b - a,
{
    if a < b {
        lemma_pow2_mono(a + 1, b);
        lemma_pow2_unfold(a + 1);
        lemma_pow2_pos(a);
    }
}

impl Default for Config {
    fn default() -> (r: Self)
        ensures
            r.channel_width == 0 && r.fpga_width == 0 && r.n_rail == 0 && r.lut_k == 0,
            r.grid_width == 0 && r.ble_clk_en_size == 0,
            r.ble_local_clk_en_index == 0 && r.ble_global_clk_en_index == 0,
            r.fpga_delay_pad_exit == 0 && r.fpga_delay_ble_exit == 0,
            r.fpga_delay_ble_enter == 0 && r.fpga_delay_pad_enter == 0,
            r.fpga_delay_trackswitch == 0,
            r.output_path is None && r.arch_file is None,
            r.parameter_store@.len() == 0,
            !r.dual_rail_mode,
            r.blif_file@.len() == 0 && r.route_file@.len() == 0 && r.place_file@.len() == 0,
            r.bit_file@.len() == 0 && r.port_map_file@.len() == 0 && r.module_name@.len() == 0,
    {
        Config {
            output_path: None,
            parameter_store: Vec::new(),
            dual_rail_mode: false,
            blif_file: String::new(),
            route_file: String::new(),
            place_file: String::new(),
            arch_file: None,
            bit_file: String::new(),
            port_map_file: String::new(),
            module_name: String::new(),
            channel_width: 0,
            grid_width: 0,
            fpga_width: 0,
            n_rail: 0,
            lut_k: 0,
            ble_clk_en_size: 0,
            ble_local_clk_en_index: 0,
            ble_global_clk_en_index: 0,
            fpga_delay_pad_exit: 0,
            fpga_delay_ble_exit: 0,
            fpga_delay_ble_enter: 0,
            fpga_delay_pad_enter: 0,
            fpga_delay_trackswitch: 0,
        }
    }
}

/// The stem given for a file, or else the project name.
pub open spec fn stem(given: Option<&str>, name: &str) -> Seq<char> {
    match given { Some(g) => g@, None => name@ }
}

/// `stem` followed by `suffix`.
fn with_suffix(given: Option<&str>, name: &str, suffix: &str) -> (r: String)
    ensures
        r@ == stem(given, name) + suffix@,
{
    let mut r = match given { Some(g) => g.to_owned(), None => name.to_owned() };
    r.append(suffix);
    r
}

/// The files of a VPR project called `name`: the netlist
/// `B.pre-vpr.blif`, the placement `P.place`, the routing `R.route` and
/// the bitstream `S.bs`, where each stem is the one given or else `name`.
pub fn project_files(name: &str, blif: Option<&str>, place: Option<&str>, route: Option<&str>, bit: Option<&str>)
    -> (r: (String, String, String, String))
    ensures
        r.0@ == stem(blif, name) + ".pre-vpr.blif"@,
        r.1@ == stem(place, name) + ".place"@,
        r.2@ == stem(route, name) + ".route"@,
        r.3@ == stem(bit, name) + ".bs"@,
{
    (with_suffix(blif, name, ".pre-vpr.blif"), with_suffix(place, name, ".place"),
        with_suffix(route, name, ".route"), with_suffix(bit, name, ".bs"))
}

/// The netlists of the dual-rail conversion of a project called `name`:
/// the one read, as given or else `name.abc.blif`, and the one written, as
/// given or else `name.abc.dual.blif`.
pub fn dual_rail_files(name: &str, blif: Option<&str>, output: Option<&str>) -> (r: (String, String))
    ensures
        r.0@ == (match blif { Some(b) => b@, None => name@ + ".abc.blif"@ }),
        r.1@ == (match output { Some(o) => o@, None => name@ + ".abc.dual.blif"@ }),
{
    let input = match blif { Some(b) => b.to_owned(), None => with_suffix(None, name, ".abc.blif") };
    let out = match output { Some(o) => o.to_owned(), None => with_suffix(None, name, ".abc.dual.blif") };
    (input, out)
}

} // verus!
