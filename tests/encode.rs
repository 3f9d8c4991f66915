use display_link::decimal::{decimal_string, div_round_half_even, percent, reading_string};
use display_link::frame::{
    gpu_load_frame, is_core_channel, network_totals, now_playing_frame, power_network_frame,
    system_load_frame, wire_line, BatteryState, GpuLoad, SystemLoad, Track,
};

fn load(mem: (u64, u64), swap: (u64, u64)) -> SystemLoad {
    SystemLoad {
        cpu_usage_bits: 12.4f32.to_bits(),
        core_temperature_bits: 47.6f32.to_bits(),
        memory_used: mem.0,
        memory_total: mem.1,
        swap_used: swap.0,
        swap_total: swap.1,
    }
}

#[test]
fn memory_half_used_is_fifty_percent() {
    assert_eq!(percent(5120, 10240), Some(50));
    assert_eq!(system_load_frame(&load((5120, 10240), (1, 4))), "CPU 12% 48^C;Mem 50% Swp 25%");
}

#[test]
fn zero_total_renders_placeholder() {
    assert_eq!(percent(0, 0), None);
    assert_eq!(system_load_frame(&load((0, 0), (0, 0))), "CPU 12% 48^C;Mem --% Swp --%");
}

#[test]
fn ties_round_to_even() {
    assert_eq!(reading_string(52.5f32.to_bits()), "52");
    assert_eq!(reading_string(53.5f32.to_bits()), "54");
    assert_eq!(reading_string(0.5f32.to_bits()), "0");
    assert_eq!(reading_string(1.5f32.to_bits()), "2");
    assert_eq!(percent(105, 200), Some(52));
    assert_eq!(percent(107, 200), Some(54));
    assert_eq!(div_round_half_even(5, 2), 2);
    assert_eq!(div_round_half_even(7, 2), 4);
    assert_eq!(div_round_half_even(7, 3), 2);
    assert_eq!(div_round_half_even(8, 3), 3);
}

#[test]
fn readings_render_like_whole_number_formatting() {
    for v in [0.0f32, 0.49, 0.51, 12.4, 99.5, 100.0, 1234.5678, 3.0e9, 1.0e-30, -7.6, -0.2] {
        assert_eq!(reading_string(v.to_bits()), format!("{:.0}", v));
    }
    assert_eq!(reading_string(f32::MAX.to_bits()), format!("{:.0}", f32::MAX));
}

#[test]
fn non_finite_readings_render_placeholder() {
    assert_eq!(reading_string(f32::NAN.to_bits()), "--");
    assert_eq!(reading_string(f32::INFINITY.to_bits()), "--");
    assert_eq!(reading_string((0.0f32 / 0.0).to_bits()), "--");
}

#[test]
fn decimal_text() {
    assert_eq!(decimal_string(0), "0");
    assert_eq!(decimal_string(7), "7");
    assert_eq!(decimal_string(1000), "1000");
    assert_eq!(decimal_string(u128::MAX), u128::MAX.to_string());
}

#[test]
fn gpu_frame() {
    let m = GpuLoad { usage: 37, temperature: 61, memory_used: 3, memory_total: 8 };
    assert_eq!(gpu_load_frame(&m), "GPU 37% 61^C;Mem 38%");
}

#[test]
fn power_frame_with_battery() {
    let counters = vec![(1500, 250), (2600, 800)];
    let charging = BatteryState { charging: true, charge_percent_bits: 80.4f32.to_bits() };
    assert_eq!(power_network_frame(Some(charging), &counters), "` 80%;] 4 [ 1 KB/s");
    let draining = BatteryState { charging: false, charge_percent_bits: 80.6f32.to_bits() };
    assert_eq!(power_network_frame(Some(draining), &counters), "& 81%;] 4 [ 1 KB/s");
}

#[test]
fn power_frame_without_battery() {
    assert_eq!(power_network_frame(None, &vec![(12345, 999)]), "] 12 KB/s;[ 0 KB/s");
    assert_eq!(power_network_frame(None, &vec![]), "] 0 KB/s;[ 0 KB/s");
}

#[test]
fn network_totals_do_not_overflow() {
    let c = vec![(u64::MAX, 1), (u64::MAX, 2)];
    assert_eq!(network_totals(&c), (2 * u64::MAX as u128, 3));
}

#[test]
fn now_playing_frames() {
    let t = Track {
        artists: Some(vec![String::from("A"), String::from("B")]),
        title: Some(String::from("Song")),
    };
    assert_eq!(now_playing_frame(true, &Some(t)), "# A, B;Song");
    let unknown = Track { artists: None, title: None };
    assert_eq!(now_playing_frame(false, &Some(unknown)), "$ Unknown artist;Unknown title");
    let empty = Track { artists: Some(vec![]), title: Some(String::from("X")) };
    assert_eq!(now_playing_frame(true, &Some(empty)), "# Unknown artist;X");
    assert_eq!(now_playing_frame(false, &None), "$ No music data;");
}

#[test]
fn wire_line_ends_with_newline() {
    assert_eq!(wire_line("a;b"), "a;b\n");
}

#[test]
fn core_channels_by_label() {
    assert!(is_core_channel("Core 0"));
    assert!(is_core_channel("coretemp Core 3"));
    assert!(!is_core_channel("acpitz temp1"));
    assert!(!is_core_channel("Cor"));
    assert!(!is_core_channel(""));
}
