use nvidia_oc::csv::{header_string, record_line_string, CsvLog};
use nvidia_oc::search::{run, RecordSink};
use nvidia_oc::sim::{ScriptedDevice, ScriptedProbe};
use nvidia_oc::{Baseline, Configuration, Measurement, Record, SupportedClocks};

fn record(
    power_limit: u32,
    freq_offset: i32,
    mem_offset: i32,
    max_clock: u32,
    score: i64,
    avg_power_cw: u64,
) -> Record {
    Record {
        config: Configuration { power_limit, freq_offset, mem_offset, min_clock: 0, max_clock },
        result: Measurement { score, avg_power_cw },
    }
}

#[test]
fn header_names_every_field() {
    assert_eq!(
        header_string(),
        "power_limit_w,freq_offset,mem_offset,min_clock,max_clock,score,avg_power_w"
    );
}

#[test]
fn line_renders_watts_offsets_and_two_decimals() {
    let r = record(145_000, -15, 200, 2100, 1234, 7550);
    assert_eq!(record_line_string(&r), "145,-15,200,0,2100,1234,75.50");
}

#[test]
fn line_pads_small_power_fractions() {
    let r = record(5_000, 0, 0, 0, -3, 5);
    assert_eq!(record_line_string(&r), "5,0,0,0,0,-3,0.05");
}

#[test]
fn line_rounds_power_limit_down_to_whole_watts() {
    let r = record(5_999, 1, -1, 1, 0, 100);
    assert_eq!(record_line_string(&r), "5,1,-1,0,1,0,1.00");
}

#[test]
fn fresh_store_stays_empty_until_the_first_record() {
    let store = CsvLog::new();
    assert!(store.lines().is_empty());
}

#[test]
fn one_header_then_one_line_per_record_in_order() {
    let mut store = CsvLog::new();
    let first = record(145_000, 0, 0, 2100, 1000, 25000);
    let second = record(140_000, -100, 0, 2100, 990, 24050);
    store.put(&first);
    store.put(&second);
    let lines = store.lines();
    assert_eq!(lines.len(), 3);
    assert_eq!(
        lines[0],
        "power_limit_w,freq_offset,mem_offset,min_clock,max_clock,score,avg_power_w"
    );
    assert_eq!(lines[1], "145,0,0,0,2100,1000,250.00");
    assert_eq!(lines[2], "140,-100,0,0,2100,990,240.50");
}

#[test]
fn a_search_run_fills_the_store_with_header_and_rows() {
    let baseline = Baseline {
        power_limit: 15_000,
        freq_offset: 0,
        mem_offset: 0,
        graphics_clock: 0,
        memory_clock: 0,
        max_clock: 2100,
    };
    let clocks = SupportedClocks { graphics: Vec::new(), memory: Vec::new() };
    let mut device = ScriptedDevice::new(Vec::new());
    let mut probe = ScriptedProbe::new(Vec::new(), Measurement { score: 500, avg_power_cw: 9925 });
    let mut store = CsvLog::new();
    let records = run(&baseline, &clocks, &mut device, &mut probe, &mut store).records;
    // the descent adopts 10000 and 5000; each was persisted as it was made
    assert_eq!(records.len(), 2);
    let lines = store.lines();
    assert_eq!(lines.len(), 3);
    assert_eq!(
        lines[0],
        "power_limit_w,freq_offset,mem_offset,min_clock,max_clock,score,avg_power_w"
    );
    assert_eq!(lines[1], "10,0,0,0,2100,500,99.25");
    assert_eq!(lines[2], "5,0,0,0,2100,500,99.25");
}
