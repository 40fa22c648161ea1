use fix_flow::bot::{
    cancel_order_message, cancel_order_request, initial_order_terms, logon_request, new_order_request, logon_message, market_data_event, market_data_request,
    new_order_message, reply_order_id, report_event, signed_decimal_text, try_market_data_event,
    try_reply_order_id, try_report_event, CancelTracker, MarketEvent, OrderBookUpdate, ReportEvent,
    MAX_ORDER,
};
use fix_flow::encoder::{flow_encoder, JsonField};

const EXECUTION_REPORT: &[u8] =
    b"8=FIX.4.4|9=67|35=8|49=BITWYRE|56=SENDER|34=2|52=20240101-00:00:00|37=ORD1|11=CL1|10=086|";
const REPORT_WITHOUT_CLORDID: &[u8] =
    b"8=FIX.4.4|9=60|35=8|49=BITWYRE|56=SENDER|34=2|52=20240101-00:00:00|37=ORD1|10=116|";
const MARKET_DATA: &[u8] =
    b"8=FIX.4.4|9=84|35=X|49=BITWYRE|56=SENDER|34=3|52=20240101-00:00:00|55=btc_usdt_spot|270=25000|54=1|10=158|";
const MARKET_DATA_BAD_SIDE: &[u8] =
    b"8=FIX.4.4|9=84|35=X|49=BITWYRE|56=SENDER|34=3|52=20240101-00:00:00|55=btc_usdt_spot|270=25000|54=x|10=229|";

fn names(fields: &[(String, JsonField)]) -> Vec<(String, String)> {
    fields
        .iter()
        .map(|(name, value)| match value {
            JsonField::Field(s) => (name.clone(), s.clone()),
            JsonField::Group(_) => (name.clone(), "<group>".to_string()),
        })
        .collect()
}

fn pairs(items: &[(&str, &str)]) -> Vec<(String, String)> {
    items.iter().map(|(n, v)| (n.to_string(), v.to_string())).collect()
}

#[test]
fn logon_message_is_the_template_with_the_credentials() {
    let msg = logon_message("alice", "secret", Some("20160802-21:14:38.717"));
    assert_eq!(
        flow_encoder(&msg),
        "8=FIX.4.4|9=000082|35=A|34=1|35=A|49=SENDER|52=20160802-21:14:38.717|56=BITWYRE|554=secret|553=alice|10=131|"
    );
    let kept = logon_message("alice", "secret", None);
    assert_eq!(names(&kept.header), names(&msg.header));
    assert!(kept.trailer.is_empty());
}

#[test]
fn new_order_message_sets_the_order_terms() {
    let msg = new_order_message("acct", "24123", "0.5", 1, "btc_usdt_spot", "20240101-00:00:00.000000000");
    assert_eq!(
        names(&msg.body),
        pairs(&[
            ("Account", "acct"),
            ("ExpireTime", "20231012-16:16:50.000000000"),
            ("OrdType", "2"),
            ("OrderQty", "0.5"),
            ("Price", "24123"),
            ("Side", "1"),
            ("Symbol", "btc_usdt_spot"),
            ("TimeInForce", "1"),
            ("TransactTime", "20180920-18:14:19.492"),
        ])
    );
    assert_eq!(
        flow_encoder(&msg),
        "8=FIX.4.4|9=000210|35=D|34=1|35=D|49=SENDER|52=20240101-00:00:00.000000000|56=BITWYRE|60=20240101-00:00:00.000000000|1=acct|126=20231012-16:16:50.000000000|40=2|38=0.5|44=24123|54=1|55=btc_usdt_spot|59=1|60=20180920-18:14:19.492|10=107|"
    );
}

#[test]
fn cancel_request_names_the_original_order() {
    let msg = cancel_order_message("ORD1", "acct", "btc_usdt_spot", "T");
    assert_eq!(
        names(&msg.header),
        pairs(&[
            ("BeginString", "FIX.4.4"),
            ("MsgSeqNum", "1"),
            ("MsgType", "F"),
            ("SenderCompID", "SENDER"),
            ("SendingTime", "T"),
            ("TargetCompID", "BITWYRE"),
            ("TransactTime", "T"),
        ])
    );
    assert_eq!(
        flow_encoder(&msg),
        "8=FIX.4.4|9=000110|35=F|34=1|35=F|49=SENDER|52=T|56=BITWYRE|60=T|1=acct|38=0.1|41=ORD1|55=btc_usdt_spot|60=20180920-18:14:19.492|10=078|"
    );
}

#[test]
fn integers_are_written_as_to_string_writes_them() {
    assert_eq!(signed_decimal_text(0), "0");
    assert_eq!(signed_decimal_text(-128), "-128");
    assert_eq!(signed_decimal_text(1700000123), "1700000123");
    assert_eq!(signed_decimal_text(i64::MIN), i64::MIN.to_string());
    assert_eq!(signed_decimal_text(i64::MAX), i64::MAX.to_string());
}

#[test]
fn first_orders_take_the_last_digits_of_the_time() {
    assert_eq!(initial_order_terms(1700000123, true), ("24123".to_string(), "0.0002123".to_string(), 1));
    assert_eq!(initial_order_terms(1700000987, false), ("25987".to_string(), "0.0001987".to_string(), 2));
    assert_eq!(initial_order_terms(-45, true), ("24-45".to_string(), "0.0002-45".to_string(), 1));
}

#[test]
fn market_data_request_is_the_fixed_subscription() {
    assert!(market_data_request().starts_with("8=FIX.4.4|9=120|35=V|"));
    assert!(market_data_request().ends_with("|269=0|10=052|"));
}

#[test]
fn reply_to_a_new_order_gives_its_order_id() {
    assert_eq!(reply_order_id(EXECUTION_REPORT), "ORD1");
    assert_eq!(try_reply_order_id(EXECUTION_REPORT), Some("ORD1".to_string()));
    assert_eq!(try_reply_order_id(b"no fix here"), None);
    let heartbeat = b"8=FIX.4.4|9=42|35=0|49=A|56=B|34=12|52=20100304-07:59:30|10=185|";
    assert_eq!(reply_order_id(heartbeat), "");
}

#[test]
fn execution_reports_name_their_orders() {
    assert_eq!(report_event(EXECUTION_REPORT), ReportEvent::Order("CL1".to_string()));
    assert_eq!(report_event(b""), ReportEvent::Closed);
    assert_eq!(report_event(b"garbage"), ReportEvent::Skipped);
    assert_eq!(try_report_event(REPORT_WITHOUT_CLORDID), None);
    assert_eq!(try_report_event(EXECUTION_REPORT), Some(ReportEvent::Order("CL1".to_string())));
}

#[test]
fn market_data_for_the_symbol_becomes_an_update() {
    let expected = MarketEvent::Update(OrderBookUpdate {
        price: "25000".to_string(),
        qty: "25000".to_string(),
        side: 1,
    });
    assert_eq!(market_data_event(MARKET_DATA, "btc_usdt_spot", false), expected);
    assert_eq!(market_data_event(MARKET_DATA, "eth_usdt_spot", false), MarketEvent::Skipped);
    assert_eq!(market_data_event(MARKET_DATA, "btc_usdt_spot", true), MarketEvent::Skipped);
    assert_eq!(market_data_event(b"", "btc_usdt_spot", false), MarketEvent::Closed);
    assert_eq!(market_data_event(b"8=FIX", "btc_usdt_spot", false), MarketEvent::Skipped);
    assert_eq!(try_market_data_event(MARKET_DATA_BAD_SIDE, "btc_usdt_spot", false), None);
    assert_eq!(
        try_market_data_event(MARKET_DATA_BAD_SIDE, "eth_usdt_spot", false),
        Some(MarketEvent::Skipped)
    );
    assert_eq!(try_market_data_event(EXECUTION_REPORT, "btc_usdt_spot", false), None);
}

#[test]
fn tracker_is_ready_once_every_order_is_reported() {
    let mut t = CancelTracker::new();
    assert!(t.ready_to_cancel());
    t.record_order("A".to_string());
    t.record_order("B".to_string());
    t.record_order("".to_string());
    t.record_order("A".to_string());
    assert!(!t.ready_to_cancel());
    t.record_report("A".to_string());
    t.record_report("Z".to_string());
    t.record_report("A".to_string());
    assert!(!t.ready_to_cancel());
    assert_eq!(t.orders_to_cancel(), vec!["A".to_string()]);
    t.record_report("B".to_string());
    assert!(t.ready_to_cancel());
    let mut ids = t.orders_to_cancel();
    ids.sort();
    assert_eq!(ids, vec!["A".to_string(), "B".to_string()]);
}

#[test]
fn tracker_counts_distinct_orders_toward_the_limit() {
    let mut t = CancelTracker::new();
    for k in 0..MAX_ORDER - 1 {
        t.record_order(format!("O{}", k));
        t.record_order(format!("O{}", k));
    }
    assert!(!t.order_limit_reached());
    t.record_order("last".to_string());
    assert!(t.order_limit_reached());
    assert_eq!(MAX_ORDER, 10);
}

#[test]
fn requests_are_the_messages_in_tag_value_syntax() {
    assert_eq!(
        logon_request("alice", "secret", Some("20160802-21:14:38.717")),
        Some(flow_encoder(&logon_message("alice", "secret", Some("20160802-21:14:38.717"))))
    );
    assert_eq!(
        logon_request("alice", "secret", None),
        Some("8=FIX.4.4|9=000082|35=A|34=1|35=A|49=SENDER|52=20160802-21:14:38.717|56=BITWYRE|554=secret|553=alice|10=131|".to_string())
    );
    assert_eq!(
        new_order_request("acct", "24123", "0.5", 1, "btc_usdt_spot", "20240101-00:00:00.000000000"),
        Some("8=FIX.4.4|9=000210|35=D|34=1|35=D|49=SENDER|52=20240101-00:00:00.000000000|56=BITWYRE|60=20240101-00:00:00.000000000|1=acct|126=20231012-16:16:50.000000000|40=2|38=0.5|44=24123|54=1|55=btc_usdt_spot|59=1|60=20180920-18:14:19.492|10=107|".to_string())
    );
    assert_eq!(
        cancel_order_request("ORD1", "acct", "btc_usdt_spot", "T"),
        Some("8=FIX.4.4|9=000110|35=F|34=1|35=F|49=SENDER|52=T|56=BITWYRE|60=T|1=acct|38=0.1|41=ORD1|55=btc_usdt_spot|60=20180920-18:14:19.492|10=078|".to_string())
    );
}

#[test]
fn side_is_the_given_one_or_a_draw() {
    assert_eq!(fix_flow::bot::order_side(Some(2)), 2);
    assert_eq!(fix_flow::bot::order_side(Some(-5)), -5);
    for _ in 0..20 {
        let side = fix_flow::bot::order_side(None);
        assert!(side == 1 || side == 2);
    }
}

#[test]
fn sides_are_read_as_i8() {
    use_parse();
}

fn use_parse() {
    assert_eq!(fix_flow::text::parse_i8("1"), Some(1));
    assert_eq!(fix_flow::text::parse_i8("+12"), Some(12));
    assert_eq!(fix_flow::text::parse_i8("-128"), Some(-128));
    assert_eq!(fix_flow::text::parse_i8("127"), Some(127));
    assert_eq!(fix_flow::text::parse_i8("128"), None);
    assert_eq!(fix_flow::text::parse_i8("-129"), None);
    assert_eq!(fix_flow::text::parse_i8("007"), Some(7));
    assert_eq!(fix_flow::text::parse_i8(""), None);
    assert_eq!(fix_flow::text::parse_i8("-"), None);
    assert_eq!(fix_flow::text::parse_i8("1a"), None);
    assert_eq!(fix_flow::text::parse_i8("99999999999"), None);
    for text in ["0", "-0", "+", " 1", "12x", "100", "-100", "x"] {
        assert_eq!(fix_flow::text::parse_i8(text), text.parse::<i8>().ok());
    }
}
