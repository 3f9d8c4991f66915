//! The frames sent to the display: two text lines joined by `;`, one frame
//! per tick, each followed by a line break on the wire.
use vstd::prelude::*;
use crate::decimal::{
    decimal,
    percent_text,
    push_decimal,
    push_percent,
    push_reading,
    reading_text,
};

verus! {

/// Readings of the system-load screen. Sensor values are the bits of `f32`s.
#[derive(Clone, Copy, Debug, PartialEq, Eq)]
pub struct SystemLoad {
    /// Processor load in percent.
    pub cpu_usage_bits: u32,
    /// Mean temperature of the core sensor channels, in degrees Celsius
    /// (a NaN when there is no such channel).
    pub core_temperature_bits: u32,
    pub memory_used: u64,
    pub memory_total: u64,
    pub swap_used: u64,
    pub swap_total: u64,
}

/// Readings of the GPU screen.
#[derive(Clone, Copy, Debug, PartialEq, Eq)]
pub struct GpuLoad {
    /// Utilisation in percent.
    pub usage: u32,
    /// Temperature in degrees Celsius.
    pub temperature: u32,
    pub memory_used: u64,
    pub memory_total: u64,
}

/// State of the first battery.
#[derive(Clone, Copy, Debug, PartialEq, Eq)]
pub struct BatteryState {
    pub charging: bool,
    /// State of charge in percent, as the bits of an `f32`.
    pub charge_percent_bits: u32,
}

/// What the media player reports of the current track.
#[derive(Clone, Debug)]
pub struct Track {
    pub artists: Option<Vec<String>>,
    pub title: Option<String>,
}

pub open spec fn frame_text(line1: Seq<char>, line2: Seq<char>) -> Seq<char> {
    line1 + ";"@ + line2
}

pub open spec fn system_load_text(m: SystemLoad) -> Seq<char> {
    frame_text(
        "CPU "@ + reading_text(m.cpu_usage_bits) + "% "@ + reading_text(m.core_temperature_bits)
            + "^C"@,
        "Mem "@ + percent_text(m.memory_used as nat, m.memory_total as nat) + "% Swp "@
            + percent_text(m.swap_used as nat, m.swap_total as nat) + "%"@,
    )
}

pub open spec fn gpu_load_text(m: GpuLoad) -> Seq<char> {
    frame_text(
        "GPU "@ + decimal(m.usage as nat) + "% "@ + decimal(m.temperature as nat) + "^C"@,
        "Mem "@ + percent_text(m.memory_used as nat, m.memory_total as nat) + "%"@,
    )
}

/// Sum of the first components (bytes received per interface).
pub open spec fn total_received(c: Seq<(u64, u64)>) -> nat
    decreases c.len(),
{
    if c.len() == 0 {
        0
    } else {
        total_received(c.drop_last()) + c.last().0 as nat
    }
}

/// Sum of the second components (bytes sent per interface).
pub open spec fn total_transmitted(c: Seq<(u64, u64)>) -> nat
    decreases c.len(),
{
    if c.len() == 0 {
        0
    } else {
        total_transmitted(c.drop_last()) + c.last().1 as nat
    }
}

pub open spec fn charge_symbol(charging: bool) -> Seq<char> {
    if charging {
        "`"@
    } else {
        "&"@
    }
}

/// Battery (if any) and network throughput in kilobytes per tick.
pub open spec fn power_network_text(battery: Option<BatteryState>, rx: nat, tx: nat) -> Seq<char> {
    match battery {
        Some(b) => frame_text(
            charge_symbol(b.charging) + " "@ + reading_text(b.charge_percent_bits) + "%"@,
            "] "@ + decimal(rx / 1000) + " [ "@ + decimal(tx / 1000) + " KB/s"@,
        ),
        None => frame_text(
            "] "@ + decimal(rx / 1000) + " KB/s"@,
            "[ "@ + decimal(tx / 1000) + " KB/s"@,
        ),
    }
}

/// The parts joined by `sep`.
pub open spec fn join(parts: Seq<Seq<char>>, sep: Seq<char>) -> Seq<char>
    decreases parts.len(),
{
    if parts.len() == 0 {
        Seq::empty()
    } else if parts.len() == 1 {
        parts[0]
    } else {
        join(parts.drop_last(), sep) + sep + parts.last()
    }
}

pub open spec fn string_views(v: Seq<String>) -> Seq<Seq<char>> {
    v.map_values(|s: String| s@)
}

pub open spec fn artists_text(artists: Option<Vec<String>>) -> Seq<char> {
    match artists {
        Some(v) => if join(string_views(v@), ", "@).len() == 0 {
            "Unknown artist"@
        } else {
            join(string_views(v@), ", "@)
        },
        None => "Unknown artist"@,
    }
}

pub open spec fn title_text(title: Option<String>) -> Seq<char> {
    match title {
        Some(t) => t@,
        None => "Unknown title"@,
    }
}

pub open spec fn play_symbol(playing: bool) -> Seq<char> {
    if playing {
        "#"@
    } else {
        "$"@
    }
}

pub open spec fn now_playing_text(playing: bool, track: Option<Track>) -> Seq<char> {
    match track {
        Some(t) => frame_text(
            play_symbol(playing) + " "@ + artists_text(t.artists),
            title_text(t.title),
        ),
        None => frame_text(play_symbol(playing) + " No music data"@, Seq::empty()),
    }
}

/// The frame of the system-load screen.
pub fn system_load_frame(m: &SystemLoad) -> (r: String)
    ensures
        r@ == system_load_text(*m),
{
    let mut s = String::new();
    s.append("CPU ");
    push_reading(&mut s, m.cpu_usage_bits);
    s.append("% ");
    push_reading(&mut s, m.core_temperature_bits);
    s.append("^C;Mem ");
    push_percent(&mut s, m.memory_used, m.memory_total);
    s.append("% Swp ");
    push_percent(&mut s, m.swap_used, m.swap_total);
    s.append("%");
    proof {
        reveal_strlit("^C;Mem ");
        reveal_strlit("^C");
        reveal_strlit(";");
        reveal_strlit("Mem ");
        assert("^C;Mem "@ =~= "^C"@ + ";"@ + "Mem "@);
    }
    assert(s@ =~= system_load_text(*m));
    s
}

/// The frame of the GPU screen.
pub fn gpu_load_frame(m: &GpuLoad) -> (r: String)
    ensures
        r@ == gpu_load_text(*m),
{
    let mut s = String::new();
    s.append("GPU ");
    push_decimal(&mut s, m.usage as u128);
    s.append("% ");
    push_decimal(&mut s, m.temperature as u128);
    s.append("^C;Mem ");
    push_percent(&mut s, m.memory_used, m.memory_total);
    s.append("%");
    proof {
        reveal_strlit("^C;Mem ");
        reveal_strlit("^C");
        reveal_strlit(";");
        reveal_strlit("Mem ");
        assert("^C;Mem "@ =~= "^C"@ + ";"@ + "Mem "@);
    }
    assert(s@ =~= gpu_load_text(*m));
    s
}

/// Total bytes received and sent over all interfaces.
pub fn network_totals(counters: &Vec<(u64, u64)>) -> (r: (u128, u128))
    ensures
        r.0 == total_received(counters@),
        r.1 == total_transmitted(counters@),
{
    let mut rx: u128 = 0;
    let mut tx: u128 = 0;
    let mut i: usize = 0;
    while i < counters.len()
        invariant
            i <= counters@.len(),
            rx == total_received(counters@.subrange(0, i as int)),
            tx == total_transmitted(counters@.subrange(0, i as int)),
            rx <= i * 0xffff_ffff_ffff_ffff,
            tx <= i * 0xffff_ffff_ffff_ffff,
        decreases counters@.len() - i,
    {
        let (a, b) = counters[i];
        proof {
            assert(counters@.subrange(0, i + 1).drop_last() =~= counters@.subrange(0, i as int));
        }
        rx = rx + a as u128;
        tx = tx + b as u128;
        i = i + 1;
    }
    assert(counters@.subrange(0, i as int) =~= counters@);
    (rx, tx)
}

/// The frame of the power-and-network screen. `counters` holds, per network
/// interface, the bytes received and sent since the last reading.
pub fn power_network_frame(battery: Option<BatteryState>, counters: &Vec<(u64, u64)>) -> (r: String)
    ensures
        r@ == power_network_text(
            battery,
            total_received(counters@),
            total_transmitted(counters@),
        ),
{
    let (rx, tx) = network_totals(counters);
    let mut s = String::new();
    match battery {
        Some(b) => {
            if b.charging {
                s.append("`");
            } else {
                s.append("&");
            }
            s.append(" ");
            push_reading(&mut s, b.charge_percent_bits);
            s.append("%;] ");
            push_decimal(&mut s, rx / 1000);
            s.append(" [ ");
            push_decimal(&mut s, tx / 1000);
            s.append(" KB/s");
            proof {
                reveal_strlit("%;] ");
                reveal_strlit("%");
                reveal_strlit(";");
                reveal_strlit("] ");
                assert("%;] "@ =~= "%"@ + ";"@ + "] "@);
            }
        },
        None => {
            s.append("] ");
            push_decimal(&mut s, rx / 1000);
            s.append(" KB/s;[ ");
            push_decimal(&mut s, tx / 1000);
            s.append(" KB/s");
            proof {
                reveal_strlit(" KB/s;[ ");
                reveal_strlit(" KB/s");
                reveal_strlit(";");
                reveal_strlit("[ ");
                assert(" KB/s;[ "@ =~= " KB/s"@ + ";"@ + "[ "@);
            }
        },
    }
    assert(s@ =~= power_network_text(
        battery,
        total_received(counters@),
        total_transmitted(counters@),
    ));
    s
}

/// The artists joined by `", "`.
fn join_artists(v: &Vec<String>) -> (r: String)
    ensures
        r@ == join(string_views(v@), ", "@),
{
    let ghost parts = string_views(v@);
    let mut s = String::new();
    let mut i: usize = 0;
    while i < v.len()
        invariant
            i <= v@.len(),
            parts == string_views(v@),
            s@ == join(parts.subrange(0, i as int), ", "@),
        decreases v@.len() - i,
    {
        proof {
            assert(parts.subrange(0, i + 1).drop_last() =~= parts.subrange(0, i as int));
        }
        if i > 0 {
            s.append(", ");
        }
        s.append(v[i].as_str());
        proof {
            if i == 0 {
                assert(Seq::<char>::empty() + v@[0]@ =~= parts.subrange(0, 1)[0]);
            }
        }
        i = i + 1;
    }
    assert(parts.subrange(0, i as int) =~= parts);
    s
}

/// The frame of the media screen: the playback symbol and the artists on
/// the first line, the title on the second; without track data, a notice.
pub fn now_playing_frame(playing: bool, track: &Option<Track>) -> (r: String)
    ensures
        r@ == now_playing_text(playing, *track),
{
    let mut s = String::new();
    if playing {
        s.append("#");
    } else {
        s.append("$");
    }
    match track {
        Some(t) => {
            s.append(" ");
            match &t.artists {
                Some(v) => {
                    let joined = join_artists(v);
                    if joined.as_str().unicode_len() == 0 {
                        s.append("Unknown artist");
                    } else {
                        s.append(joined.as_str());
                    }
                },
                None => s.append("Unknown artist"),
            }
            s.append(";");
            match &t.title {
                Some(title) => s.append(title.as_str()),
                None => s.append("Unknown title"),
            }
        },
        None => {
            s.append(" No music data;");
            proof {
                reveal_strlit(" No music data;");
                reveal_strlit(" No music data");
                reveal_strlit(";");
                assert(" No music data;"@ =~= " No music data"@ + ";"@);
            }
        },
    }
    assert(s@ =~= now_playing_text(playing, *track));
    s
}

/// The frame as sent on the wire: followed by a line break.
pub fn wire_line(frame: &str) -> (r: String)
    ensures
        r@ == frame@ + "\n"@,
{
    let mut s = String::new();
    s.append(frame);
    s.append("\n");
    assert(s@ =~= frame@ + "\n"@);
    s
}

pub open spec fn core_marker() -> Seq<char> {
    seq!['C', 'o', 'r', 'e']
}

/// `label` holds `Core` starting at position `i`.
pub open spec fn marker_at(label: Seq<char>, i: int) -> bool {
    0 <= i && i + 4 <= label.len() && label.subrange(i, i + 4) == core_marker()
}

/// Temperature channels whose label mentions `Core` are the processor's core
/// sensors, which the system-load screen averages.
pub open spec fn is_core_label(label: Seq<char>) -> bool {
    exists|i: int| marker_at(label, i)
}

/// Whether a temperature channel is one of the processor's core sensors.
pub fn is_core_channel(label: &str) -> (r: bool)
    ensures
        r == is_core_label(label@),
{
    let n = label.unicode_len();
    if n < 4 {
        return false;
    }
    let mut i: usize = 0;
    while i <= n - 4
        invariant
            n == label@.len(),
            n >= 4,
            i <= n - 3,
            forall|j: int| 0 <= j < i ==> !#[trigger] marker_at(label@, j),
        decreases n - i,
    {
        if label.get_char(i) == 'C' && label.get_char(i + 1) == 'o' && label.get_char(i + 2) == 'r'
            && label.get_char(i + 3) == 'e' {
            assert(label@.subrange(i as int, i + 4) =~= core_marker());
            assert(marker_at(label@, i as int));
            return true;
        }
        proof {
            if marker_at(label@, i as int) {
                assert(label@.subrange(i as int, i + 4)[0] == label@[i as int]);
                assert(label@.subrange(i as int, i + 4)[1] == label@[i + 1]);
                assert(label@.subrange(i as int, i + 4)[2] == label@[i + 2]);
                assert(label@.subrange(i as int, i + 4)[3] == label@[i + 3]);
            }
        }
        i = i + 1;
    }
    false
}

} // verus!
