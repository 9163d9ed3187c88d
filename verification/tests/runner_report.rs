//! The runner's decisions and its report line on concrete values.

use lru::etna::PropertyResult;
use lru::report::{json_str, report_line};
use lru::runner::{
    absorb, draw_len, run_all, tool_name, unknown_property_message, unknown_tool_message, parse_property, parse_tool, run_witness, text_eq, to_err, Metrics,
    Property, Tool, MAX_KEYS,
};

#[test]
fn names_parse_to_properties_and_tools() {
    assert_eq!(parse_property("PopDropsKey"), Some(Property::PopDropsKey));
    assert_eq!(parse_property("CloneUnboundedNoPanic"), Some(Property::CloneUnboundedNoPanic));
    assert_eq!(parse_property("ClearResizeDropsAll"), Some(Property::ClearResizeDropsAll));
    assert_eq!(parse_property("popdropskey"), None);
    assert_eq!(parse_property("All"), None);
    assert_eq!(parse_tool("quickcheck"), Some(Tool::Quickcheck));
    assert_eq!(parse_tool("etna"), Some(Tool::Etna));
    assert_eq!(parse_tool("cargo"), None);
    assert!(text_eq("All", "All"));
    assert!(!text_eq("All", "Al"));
}

#[test]
fn to_err_keeps_only_failures() {
    assert_eq!(to_err(PropertyResult::Pass), Ok(()));
    assert_eq!(to_err(PropertyResult::Discard), Ok(()));
    assert_eq!(to_err(PropertyResult::Fail("boom".to_string())), Err("boom".to_string()));
}

#[test]
fn absorb_adds_metrics_and_keeps_the_first_failure() {
    let a = (Ok(()), Metrics { inputs: 3, elapsed_us: 10 });
    let b = (Err("first".to_string()), Metrics { inputs: 4, elapsed_us: 5 });
    let c = (Err("second".to_string()), Metrics { inputs: 1, elapsed_us: 1 });
    let ab = absorb(a, b);
    assert_eq!(ab.1, Metrics { inputs: 7, elapsed_us: 15 });
    let abc = absorb(ab, c);
    assert_eq!(abc.0, Err("first".to_string()));
    assert_eq!(abc.1, Metrics { inputs: 8, elapsed_us: 16 });
    let m = Metrics { inputs: 2, elapsed_us: 3 }.combine(Metrics::default());
    assert_eq!(m, Metrics { inputs: 2, elapsed_us: 3 });
}

#[test]
fn draw_len_stays_in_range() {
    assert_eq!(draw_len(0, 0), 0);
    assert_eq!(draw_len(25, 0), 0);
    assert_eq!(draw_len(255, 0), 255 % 25);
    assert_eq!(draw_len(255, 2), 2 + 255 % 23);
    assert_eq!(draw_len(23, 1), 24);
    for b in 0..=255u8 {
        let n = draw_len(b, 1);
        assert!((1..=MAX_KEYS).contains(&n));
    }
}

#[test]
fn witnesses_pass() {
    for p in [
        Property::CloneUnboundedNoPanic,
        Property::PopIterConsistent,
        Property::DropImplDropsAll,
        Property::ClearResizeDropsAll,
        Property::PopDropsKey,
    ] {
        assert_eq!(run_witness(p), PropertyResult::Pass);
    }
}

#[test]
fn json_str_escapes() {
    assert_eq!(json_str("plain"), "\"plain\"");
    assert_eq!(json_str("a\"b\\c"), "\"a\\\"b\\\\c\"");
    assert_eq!(json_str("l1\nl2\r\t"), "\"l1\\nl2\\r\\t\"");
    assert_eq!(json_str("\u{1}\u{1f}"), "\"\\u0001\\u001f\"");
    assert_eq!(json_str(""), "\"\"");
    assert_eq!(json_str("é"), "\"é\"");
}

#[test]
fn report_line_is_exact_and_one_line() {
    let line = report_line(
        "etna",
        "PopDropsKey",
        "passed",
        Metrics { inputs: 1, elapsed_us: 1234 },
        None,
        None,
    );
    assert_eq!(
        line,
        "{\"status\":\"passed\",\"tests\":1,\"discards\":0,\"time\":\"1234us\",\"counterexample\":null,\"error\":null,\"tool\":\"etna\",\"property\":\"PopDropsKey\"}"
    );
    let line = report_line(
        "proptest",
        "All",
        "failed",
        Metrics { inputs: 0, elapsed_us: 0 },
        Some("([1, 2]\n)"),
        Some("x\"y"),
    );
    assert_eq!(
        line,
        "{\"status\":\"failed\",\"tests\":0,\"discards\":0,\"time\":\"0us\",\"counterexample\":\"([1, 2]\\n)\",\"error\":\"x\\\"y\",\"tool\":\"proptest\",\"property\":\"All\"}"
    );
    assert!(!line.contains('\n'));
}

#[test]
fn run_all_keeps_the_first_failure_in_order() {
    let r = run_all(|p| match p {
        Property::DropImplDropsAll => (Err("third".to_string()), Metrics { inputs: 2, elapsed_us: 3 }),
        Property::PopDropsKey => (Err("fifth".to_string()), Metrics { inputs: 2, elapsed_us: 3 }),
        _ => (Ok(()), Metrics { inputs: 1, elapsed_us: 1 }),
    });
    assert_eq!(r.0, Err("third".to_string()));
    assert_eq!(r.1, Metrics { inputs: 7, elapsed_us: 9 });
    let r = run_all(|_| (Ok(()), Metrics { inputs: 4, elapsed_us: 0 }));
    assert_eq!(r, (Ok(()), Metrics { inputs: 20, elapsed_us: 0 }));
}

#[test]
fn unknown_names_are_reported() {
    assert_eq!(unknown_tool_message("cargo"), "Unknown tool: cargo");
    assert_eq!(
        unknown_property_message(Tool::Hegel, "Nope"),
        "Unknown property for hegel: Nope"
    );
    assert_eq!(tool_name(Tool::Crabcheck), "crabcheck");
}
