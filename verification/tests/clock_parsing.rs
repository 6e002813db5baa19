use nvidia_oc::clocks::parse_supported_clocks;

fn parse(text: &str) -> (Vec<u32>, Vec<u32>) {
    let bytes = text.as_bytes().to_vec();
    let r = parse_supported_clocks(&bytes);
    (r.graphics, r.memory)
}

#[test]
fn clock_lines_go_to_the_selected_axis() {
    let (graphics, memory) = parse(
        "Graphics\n    2100 MHz\n    2085 MHz\nMemory\n    10501 MHz\n",
    );
    assert_eq!(graphics, vec![2100, 2085]);
    assert_eq!(memory, vec![10501]);
}

#[test]
fn axis_headers_do_not_contribute_their_own_value() {
    let (graphics, memory) = parse("Graphics : 2100 MHz\n    2085 MHz\n");
    assert_eq!(graphics, vec![2085]);
    assert_eq!(memory, Vec::<u32>::new());
}

#[test]
fn values_before_any_axis_header_are_dropped() {
    let (graphics, memory) = parse("    500 MHz\nGraphics\n    1 MHz\n");
    assert_eq!(graphics, vec![1]);
    assert_eq!(memory, Vec::<u32>::new());
}

#[test]
fn empty_text_yields_empty_tables() {
    let (graphics, memory) = parse("");
    assert!(graphics.is_empty());
    assert!(memory.is_empty());
}

#[test]
fn a_leading_plus_sign_is_accepted() {
    let (graphics, _) = parse("Graphics\n  +123 MHz\n");
    assert_eq!(graphics, vec![123]);
}

#[test]
fn values_beyond_u32_are_dropped() {
    let (graphics, _) = parse("Graphics\n  4294967295 MHz\n  4294967296 MHz\n");
    assert_eq!(graphics, vec![4294967295]);
}

#[test]
fn malformed_numbers_are_dropped() {
    let (graphics, _) = parse("Graphics\n  12a MHz\n  MHz\n  + MHz\n  7 MHz\n");
    assert_eq!(graphics, vec![7]);
}

#[test]
fn carriage_returns_are_trimmed() {
    let (graphics, memory) = parse("Graphics\r\n  100 MHz\r\nMemory\r\n  200 MHz\r\n");
    assert_eq!(graphics, vec![100]);
    assert_eq!(memory, vec![200]);
}

#[test]
fn switching_back_to_an_axis_keeps_appending() {
    let (graphics, memory) = parse(
        "Graphics\n 10 MHz\nMemory\n 20 MHz\nGraphics\n 30 MHz\n",
    );
    assert_eq!(graphics, vec![10, 30]);
    assert_eq!(memory, vec![20]);
}

#[test]
fn lines_without_the_mhz_suffix_are_ignored() {
    let (graphics, memory) = parse("Graphics\n 15\n 16 GHz\n 17 MHz extra\n 18 MHz\n");
    assert_eq!(graphics, vec![18]);
    assert_eq!(memory, Vec::<u32>::new());
}

#[test]
fn an_axis_header_is_recognised_by_prefix() {
    let (graphics, memory) = parse("MemoryClock stuff\n 5 MHz\nGraphicsClock\n 6 MHz\n");
    assert_eq!(memory, vec![5]);
    assert_eq!(graphics, vec![6]);
}

#[test]
fn other_ascii_whitespace_is_trimmed() {
    let (graphics, _) = parse("Graphics\n\u{b}\u{c} 9 MHz \u{b}\n");
    assert_eq!(graphics, vec![9]);
}
