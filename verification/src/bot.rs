//! The decisions of a market-making bot that trades over FIX 4.4 with this
//! crate's codec: the messages it sends, what it reads from the replies, and
//! when the orders it placed are all ready to be cancelled. The connections,
//! the clock, the random choices and the prices as floating-point numbers
//! stay with the program that runs the bot.
use rand::Rng;
use vstd::prelude::*;
use vstd::string::{StrSliceExecFns, StringExecFns};
use vstd::utf8::*;
use crate::decoder::{flow_decoder_outcome, try_flow_decoder, DecoderOutcome};
use crate::encoder::{
    fields_view_of, lemma_encoding_by_view, message_view, section_view, try_flow_encoder,
    view_encodable, view_encoded_bytes, FieldView, FixJsonMessage, JsonField, MessageView,
};
use crate::json::{json_section_member, parse_section_member};
use crate::text::{digits_part, digits_value, i8_text_value, is_digit_char, parse_i8, signed_decimal_value};
use crate::tag_table::decimal_text;
use crate::tagvalue::{decimal, lemma_ascii_decode, lemma_decimal_digits};

verus! {

/// The most orders the bot places before it stops reading market data.
pub const MAX_ORDER: usize = 10;

/// The decimal text of an integer, with a `-` before a negative one, as
/// `to_string` writes it.
pub open spec fn signed_text(v: int) -> Seq<char> {
    if v < 0 {
        "-"@ + decode_utf8(decimal((-v) as nat))
    } else {
        decode_utf8(decimal(v as nat))
    }
}

/// The decimal digits of `n`, as text: digits only, read back as `n`, the
/// first one `0` only for zero.
proof fn lemma_decimal_text_value(n: nat)
    ensures
        decode_utf8(decimal(n)).len() == decimal(n).len(),
        decode_utf8(decimal(n)).len() >= 1,
        forall|i: int|
            0 <= i < decode_utf8(decimal(n)).len() ==> is_digit_char(#[trigger] decode_utf8(decimal(n))[i]),
        digits_value(decode_utf8(decimal(n))) == n,
        decode_utf8(decimal(n))[0] == '0' ==> n == 0,
    decreases n,
{
    let d = decimal(n);
    let c = decode_utf8(d);
    lemma_decimal_digits(n);
    lemma_ascii_decode(d);
    assert forall|i: int| 0 <= i < c.len() implies is_digit_char(#[trigger] c[i]) by {
        assert(c[i] as int == d[i] as int);
    }
    if n >= 10 {
        let d2 = decimal(n / 10);
        let c2 = decode_utf8(d2);
        lemma_decimal_text_value(n / 10);
        lemma_decimal_digits(n / 10);
        lemma_ascii_decode(d2);
        assert(d.drop_last() =~= d2);
        assert forall|i: int| 0 <= i < c2.len() implies c.drop_last()[i] == c2[i] by {
            assert(c[i] as int == d[i] as int);
            assert(c2[i] as int == d2[i] as int);
        }
        assert(c.drop_last() =~= c2);
        assert(c.last() as int == d.last() as int);
        assert(c[0] == c2[0]);
        assert(d.last() as int == 48 + n % 10);
        assert('0' as int == 48);
        assert(digits_value(c) == digits_value(c2) * 10 + (c.last() as int - '0' as int));
        assert((n / 10) * 10 + n % 10 == n);
    } else {
        assert(c.drop_last() =~= Seq::<char>::empty());
        assert(c.last() as int == d.last() as int);
        assert(d.last() as int == 48 + n);
        assert('0' as int == 48);
        assert(digits_value(Seq::<char>::empty()) == 0);
        assert(digits_value(c) == digits_value(c.drop_last()) * 10 + (c.last() as int - '0' as int));
    }
}

/// `signed_text` writes an integer as `to_string` does: read back, it is
/// that integer; it starts with `-` exactly where the integer is negative,
/// and never with `+`; and its digits start with `0` only for zero.
pub proof fn law_signed_text_reads_back(v: int)
    ensures
        signed_text(v).len() > 0,
        signed_decimal_value(signed_text(v)) == Some(v),
        signed_text(v)[0] != '+',
        (signed_text(v)[0] == '-') == (v < 0),
        digits_part(signed_text(v))[0] == '0' ==> v == 0,
{
    reveal_strlit("-");
    let t = signed_text(v);
    if v < 0 {
        let c = decode_utf8(decimal((-v) as nat));
        lemma_decimal_text_value((-v) as nat);
        assert(t[0] == '-');
        assert(digits_part(t) =~= c);
    } else {
        let c = decode_utf8(decimal(v as nat));
        lemma_decimal_text_value(v as nat);
        assert(is_digit_char(t[0]));
        assert(digits_part(t) =~= c);
    }
}

/// The decimal text of `v`, as `to_string` writes it.
pub fn signed_decimal_text(v: i64) -> (s: String)
    ensures
        s@ == signed_text(v as int),
{
    if v < 0 {
        let magnitude: u64 = (0i128 - v as i128) as u64;
        let digits = decimal_text(magnitude);
        let mut s = "-".to_owned();
        s.append(digits.as_str());
        s
    } else {
        decimal_text(v as u64)
    }
}

/// Draws a side with `rand::thread_rng().gen_range(1..=2)`. The draw is
/// random: all that is known is that it lies in the range, 1 or 2.
#[verifier::external_body]
fn random_side() -> (r: i8)
    ensures
        1 <= r <= 2,
{
    rand::thread_rng().gen_range(1..=2)
}

/// The side of a new order: the given one, else a random one, 1 (buy) or
/// 2 (sell).
pub fn order_side(side_order: Option<i8>) -> (r: i8)
    ensures
        match side_order {
            Some(s) => r == s,
            None => 1 <= r <= 2,
        },
{
    match side_order {
        Some(s) => s,
        None => random_side(),
    }
}

/// A field of a message with a text value.
fn text_field(name: &str, value: &str) -> (f: (String, JsonField))
    ensures
        f.0@ == name@,
        f.1 matches JsonField::Field(s) && s@ == value@,
{
    (name.to_owned(), JsonField::Field(value.to_owned()))
}

/// The `SendingTime <52>` of the message templates, kept where the bot does
/// not set the time.
pub open spec fn template_sending_time() -> Seq<char> {
    "20160802-21:14:38.717"@
}

/// The `TransactTime <60>` that the body of an order template carries.
pub open spec fn template_transact_time() -> Seq<char> {
    "20180920-18:14:19.492"@
}

/// The header of the messages the bot sends, its fields by name: message
/// type `msg_type`, sent at `sending_time`, and, where `transact_time` is
/// given, a `TransactTime` in the header too.
pub open spec fn bot_header(
    msg_type: Seq<char>,
    sending_time: Seq<char>,
    transact_time: Option<Seq<char>>,
) -> Seq<(Seq<char>, Option<Seq<char>>)> {
    let common = seq![
        ("BeginString"@, Some("FIX.4.4"@)),
        ("MsgSeqNum"@, Some("1"@)),
        ("MsgType"@, Some(msg_type)),
        ("SenderCompID"@, Some("SENDER"@)),
        ("SendingTime"@, Some(sending_time)),
        ("TargetCompID"@, Some("BITWYRE"@)),
    ];
    match transact_time {
        Some(t) => common.push(("TransactTime"@, Some(t))),
        None => common,
    }
}

/// Builds the header that `bot_header` describes.
fn bot_header_exec(msg_type: &str, sending_time: &str, transact_time: Option<&str>) -> (h: Vec<
    (String, JsonField),
>)
    ensures
        section_view(h@) == bot_header(
            msg_type@,
            sending_time@,
            match transact_time {
                Some(t) => Some(t@),
                None => None,
            },
        ),
{
    let mut h: Vec<(String, JsonField)> = Vec::new();
    h.push(text_field("BeginString", "FIX.4.4"));
    h.push(text_field("MsgSeqNum", "1"));
    h.push(text_field("MsgType", msg_type));
    h.push(text_field("SenderCompID", "SENDER"));
    h.push(text_field("SendingTime", sending_time));
    h.push(text_field("TargetCompID", "BITWYRE"));
    match transact_time {
        Some(t) => h.push(text_field("TransactTime", t)),
        None => {},
    }
    proof {
        assert(section_view(h@) =~= bot_header(
            msg_type@,
            sending_time@,
            match transact_time {
                Some(t) => Some(t@),
                None => None,
            },
        ));
    }
    h
}

/// The body of a logon.
pub open spec fn logon_body(username: Seq<char>, password: Seq<char>) -> Seq<
    (Seq<char>, Option<Seq<char>>),
> {
    seq![("Password"@, Some(password)), ("Username"@, Some(username))]
}

/// The logon message (`MsgType` `A`) with the user's name and password. Its
/// `SendingTime` is `sending_time` where given, else the template's.
pub fn logon_message(username: &str, password: &str, sending_time: Option<&str>) -> (m:
    FixJsonMessage)
    ensures
        section_view(m.header@) == bot_header(
            "A"@,
            match sending_time {
                Some(t) => t@,
                None => template_sending_time(),
            },
            None,
        ),
        section_view(m.body@) == logon_body(username@, password@),
        m.trailer@.len() == 0,
{
    let time = match sending_time {
        Some(t) => t,
        None => "20160802-21:14:38.717",
    };
    let header = bot_header_exec("A", time, None);
    let mut body: Vec<(String, JsonField)> = Vec::new();
    body.push(text_field("Password", password));
    body.push(text_field("Username", username));
    proof {
        assert(section_view(body@) =~= logon_body(username@, password@));
    }
    FixJsonMessage { header, body, trailer: Vec::new() }
}

/// The body of a new limit order (`OrdType` `2`, good till cancel) for
/// `account`: `qty` of `symbol` at `price` on `side`, with the template's
/// `ExpireTime` and `TransactTime`.
pub open spec fn new_order_body(
    account: Seq<char>,
    price: Seq<char>,
    qty: Seq<char>,
    side: i8,
    symbol: Seq<char>,
) -> Seq<(Seq<char>, Option<Seq<char>>)> {
    seq![
        ("Account"@, Some(account)),
        ("ExpireTime"@, Some("20231012-16:16:50.000000000"@)),
        ("OrdType"@, Some("2"@)),
        ("OrderQty"@, Some(qty)),
        ("Price"@, Some(price)),
        ("Side"@, Some(signed_text(side as int))),
        ("Symbol"@, Some(symbol)),
        ("TimeInForce"@, Some("1"@)),
        ("TransactTime"@, Some(template_transact_time())),
    ]
}

/// The new-order message (`MsgType` `D`) that the bot sends: the order of
/// `new_order_body`, sent at `timestamp`, which the header also carries as
/// `TransactTime`.
pub fn new_order_message(
    account: &str,
    price: &str,
    qty: &str,
    side: i8,
    symbol: &str,
    timestamp: &str,
) -> (m: FixJsonMessage)
    ensures
        section_view(m.header@) == bot_header("D"@, timestamp@, Some(timestamp@)),
        section_view(m.body@) == new_order_body(account@, price@, qty@, side, symbol@),
        m.trailer@.len() == 0,
{
    let header = bot_header_exec("D", timestamp, Some(timestamp));
    let side_text = signed_decimal_text(side as i64);
    let mut body: Vec<(String, JsonField)> = Vec::new();
    body.push(text_field("Account", account));
    body.push(text_field("ExpireTime", "20231012-16:16:50.000000000"));
    body.push(text_field("OrdType", "2"));
    body.push(text_field("OrderQty", qty));
    body.push(text_field("Price", price));
    body.push(text_field("Side", side_text.as_str()));
    body.push(text_field("Symbol", symbol));
    body.push(text_field("TimeInForce", "1"));
    body.push(text_field("TransactTime", "20180920-18:14:19.492"));
    proof {
        assert(section_view(body@) =~= new_order_body(account@, price@, qty@, side, symbol@));
    }
    FixJsonMessage { header, body, trailer: Vec::new() }
}

/// The body of a request to cancel the order `order_id` of `account`.
pub open spec fn cancel_body(account: Seq<char>, order_id: Seq<char>, symbol: Seq<char>) -> Seq<
    (Seq<char>, Option<Seq<char>>),
> {
    seq![
        ("Account"@, Some(account)),
        ("OrderQty"@, Some("0.1"@)),
        ("OrigClOrdID"@, Some(order_id)),
        ("Symbol"@, Some(symbol)),
        ("TransactTime"@, Some(template_transact_time())),
    ]
}

/// The order-cancel request (`MsgType` `F`) for `order_id`, sent at
/// `timestamp`, which the header also carries as `TransactTime`.
pub fn cancel_order_message(order_id: &str, account: &str, symbol: &str, timestamp: &str) -> (m:
    FixJsonMessage)
    ensures
        section_view(m.header@) == bot_header("F"@, timestamp@, Some(timestamp@)),
        section_view(m.body@) == cancel_body(account@, order_id@, symbol@),
        m.trailer@.len() == 0,
{
    let header = bot_header_exec("F", timestamp, Some(timestamp));
    let mut body: Vec<(String, JsonField)> = Vec::new();
    body.push(text_field("Account", account));
    body.push(text_field("OrderQty", "0.1"));
    body.push(text_field("OrigClOrdID", order_id));
    body.push(text_field("Symbol", symbol));
    body.push(text_field("TransactTime", "20180920-18:14:19.492"));
    proof {
        assert(section_view(body@) =~= cancel_body(account@, order_id@, symbol@));
    }
    FixJsonMessage { header, body, trailer: Vec::new() }
}

/// Fields given as names with text values, as fields of the JSON form.
pub open spec fn text_fields(s: Seq<(Seq<char>, Option<Seq<char>>)>) -> Seq<(Seq<char>, FieldView)> {
    s.map_values(|f: (Seq<char>, Option<Seq<char>>)| (f.0, FieldView::Text(f.1.unwrap())))
}

/// Whether every field has a text value.
pub open spec fn all_text(s: Seq<(Seq<char>, Option<Seq<char>>)>) -> bool {
    forall|i: int| 0 <= i < s.len() ==> (#[trigger] s[i]).1 is Some
}

/// A section whose fields all have text values is those texts.
proof fn lemma_text_section(sec: Seq<(String, JsonField)>)
    requires
        all_text(section_view(sec)),
    ensures
        fields_view_of(sec) == text_fields(section_view(sec)),
{
    assert forall|i: int| 0 <= i < sec.len() implies #[trigger] fields_view_of(sec)[i] == text_fields(
        section_view(sec),
    )[i] by {
        assert(section_view(sec)[i].1 is Some);
    }
    assert(fields_view_of(sec) =~= text_fields(section_view(sec)));
}

/// The plain values of a message with the given header and body and an
/// empty trailer.
pub open spec fn bot_message_view(
    header: Seq<(Seq<char>, Option<Seq<char>>)>,
    body: Seq<(Seq<char>, Option<Seq<char>>)>,
) -> MessageView {
    MessageView { header: text_fields(header), body: text_fields(body), trailer: Seq::empty() }
}

/// Whether `r` is what writing the message `v` gives: `None` where it
/// cannot be written, else its text.
pub open spec fn request_text_is(v: MessageView, r: Option<String>) -> bool {
    &&& r is Some <==> view_encodable(v)
    &&& r matches Some(s) ==> s@ == decode_utf8(view_encoded_bytes(v))
}

/// Writes a message the bot built, whose sections are those given.
fn bot_request_text(
    m: &FixJsonMessage,
    header: Ghost<Seq<(Seq<char>, Option<Seq<char>>)>>,
    body: Ghost<Seq<(Seq<char>, Option<Seq<char>>)>>,
) -> (r: Option<String>)
    requires
        section_view(m.header@) == header@,
        section_view(m.body@) == body@,
        m.trailer@.len() == 0,
        all_text(header@),
        all_text(body@),
    ensures
        request_text_is(bot_message_view(header@, body@), r),
{
    proof {
        lemma_text_section(m.header@);
        lemma_text_section(m.body@);
        assert(fields_view_of(m.trailer@) =~= Seq::<(Seq<char>, FieldView)>::empty());
        assert(message_view(*m) == bot_message_view(header@, body@));
        lemma_encoding_by_view(*m);
    }
    try_flow_encoder(m)
}

/// The logon message (see `logon_message`) in the `tag=value|` syntax, or
/// `None` where a name is unknown to the dictionary.
pub fn logon_request(username: &str, password: &str, sending_time: Option<&str>) -> (r: Option<String>)
    ensures
        request_text_is(
            bot_message_view(
                bot_header(
                    "A"@,
                    match sending_time {
                        Some(t) => t@,
                        None => template_sending_time(),
                    },
                    None,
                ),
                logon_body(username@, password@),
            ),
            r,
        ),
{
    let m = logon_message(username, password, sending_time);
    let ghost time = match sending_time {
        Some(t) => t@,
        None => template_sending_time(),
    };
    proof {
        assert(all_text(bot_header("A"@, time, None)));
        assert(all_text(logon_body(username@, password@)));
    }
    bot_request_text(&m, Ghost(bot_header("A"@, time, None)), Ghost(logon_body(username@, password@)))
}

/// The new order (see `new_order_message`) in the `tag=value|` syntax, or
/// `None` where a name is unknown to the dictionary.
pub fn new_order_request(
    account: &str,
    price: &str,
    qty: &str,
    side: i8,
    symbol: &str,
    timestamp: &str,
) -> (r: Option<String>)
    ensures
        request_text_is(
            bot_message_view(
                bot_header("D"@, timestamp@, Some(timestamp@)),
                new_order_body(account@, price@, qty@, side, symbol@),
            ),
            r,
        ),
{
    let m = new_order_message(account, price, qty, side, symbol, timestamp);
    proof {
        assert(all_text(bot_header("D"@, timestamp@, Some(timestamp@))));
        assert(all_text(new_order_body(account@, price@, qty@, side, symbol@)));
    }
    bot_request_text(
        &m,
        Ghost(bot_header("D"@, timestamp@, Some(timestamp@))),
        Ghost(new_order_body(account@, price@, qty@, side, symbol@)),
    )
}

/// The request to cancel `order_id` (see `cancel_order_message`) in the
/// `tag=value|` syntax, or `None` where a name is unknown to the dictionary.
pub fn cancel_order_request(order_id: &str, account: &str, symbol: &str, timestamp: &str) -> (r:
    Option<String>)
    ensures
        request_text_is(
            bot_message_view(
                bot_header("F"@, timestamp@, Some(timestamp@)),
                cancel_body(account@, order_id@, symbol@),
            ),
            r,
        ),
{
    let m = cancel_order_message(order_id, account, symbol, timestamp);
    proof {
        assert(all_text(bot_header("F"@, timestamp@, Some(timestamp@))));
        assert(all_text(cancel_body(account@, order_id@, symbol@)));
    }
    bot_request_text(
        &m,
        Ghost(bot_header("F"@, timestamp@, Some(timestamp@))),
        Ghost(cancel_body(account@, order_id@, symbol@)),
    )
}

/// The last three characters of `s`.
pub open spec fn last_three(s: Seq<char>) -> Seq<char> {
    s.subrange(s.len() - 3, s.len() as int)
}

/// The price and quantity of one of the first orders the bot places, made
/// from the last three digits of the time `now_secs` (seconds since the
/// epoch): a buy at `24…` for `0.0002…`, or a sell at `25…` for `0.0001…`.
pub open spec fn initial_terms(now_secs: int, buy: bool) -> (Seq<char>, Seq<char>) {
    let digits = last_three(signed_text(now_secs));
    if buy {
        ("24"@ + digits, "0.0002"@ + digits)
    } else {
        ("25"@ + digits, "0.0001"@ + digits)
    }
}

/// The first orders keep the last three characters of the time's decimal
/// text as they are, leading zeros included: the price is the two digits of
/// its side followed by those three characters (five characters in all), and
/// the quantity the six characters of its side followed by the same three
/// (nine in all).
pub proof fn law_initial_terms_keep_three_digits(now_secs: int, buy: bool)
    requires
        signed_text(now_secs).len() >= 3,
    ensures
        ({
            let t = signed_text(now_secs);
            let tail = t.subrange(t.len() - 3, t.len() as int);
            let (price, qty) = initial_terms(now_secs, buy);
            &&& price.len() == 5
            &&& qty.len() == 9
            &&& price.subrange(2, 5) == tail
            &&& qty.subrange(6, 9) == tail
            &&& price.subrange(0, 2) == if buy {
                "24"@
            } else {
                "25"@
            }
            &&& qty.subrange(0, 6) == if buy {
                "0.0002"@
            } else {
                "0.0001"@
            }
        }),
{
    reveal_strlit("24");
    reveal_strlit("25");
    reveal_strlit("0.0002");
    reveal_strlit("0.0001");
    let t = signed_text(now_secs);
    let tail = t.subrange(t.len() - 3, t.len() as int);
    let (price, qty) = initial_terms(now_secs, buy);
    if buy {
        assert(price.subrange(2, 5) =~= tail);
        assert(qty.subrange(6, 9) =~= tail);
        assert(price.subrange(0, 2) =~= "24"@);
        assert(qty.subrange(0, 6) =~= "0.0002"@);
    } else {
        assert(price.subrange(2, 5) =~= tail);
        assert(qty.subrange(6, 9) =~= tail);
        assert(price.subrange(0, 2) =~= "25"@);
        assert(qty.subrange(0, 6) =~= "0.0001"@);
    }
}

/// The terms of one of the first orders: its price and quantity as
/// `initial_terms` states them, and its side, `1` (buy) or `2` (sell). The
/// time must be written with three characters or more.
pub fn initial_order_terms(now_secs: i64, buy: bool) -> (r: (String, String, i8))
    requires
        signed_text(now_secs as int).len() >= 3,
    ensures
        (r.0@, r.1@) == initial_terms(now_secs as int, buy),
        r.2 == (if buy {
            1i8
        } else {
            2i8
        }),
{
    let ts = signed_decimal_text(now_secs);
    let n = ts.as_str().unicode_len();
    let digits = ts.as_str().substring_char(n - 3, n);
    if buy {
        let mut price = "24".to_owned();
        price.append(digits);
        let mut qty = "0.0002".to_owned();
        qty.append(digits);
        (price, qty, 1)
    } else {
        let mut price = "25".to_owned();
        price.append(digits);
        let mut qty = "0.0001".to_owned();
        qty.append(digits);
        (price, qty, 2)
    }
}

/// The market-data request the bot sends, already in the `tag=value|`
/// syntax: a snapshot-and-updates subscription (`MsgType` `V`) to the bids of
/// `btc_usdt_spot`.
pub fn market_data_request() -> (s: String)
    ensures
        s@ == "8=FIX.4.4|9=120|35=V|34=2|49=BITWYREUSER|52=20200120-11:51:40.000|56=Bitwyre|262=2|263=1|264=1|265=0|146=1|55=btc_usdt_spot|267=1|269=0|10=052|"@,
{
    "8=FIX.4.4|9=120|35=V|34=2|49=BITWYREUSER|52=20200120-11:51:40.000|56=Bitwyre|262=2|263=1|264=1|265=0|146=1|55=btc_usdt_spot|267=1|269=0|10=052|".to_owned()
}

/// The texts of a list of strings.
pub open spec fn texts(v: Seq<String>) -> Seq<Seq<char>> {
    v.map_values(|s: String| s@)
}

/// Whether `v` holds a string with the text of `s`.
fn contains_text(v: &Vec<String>, s: &String) -> (r: bool)
    ensures
        r == texts(v@).contains(s@),
{
    let mut i: usize = 0;
    while i < v.len()
        invariant
            i <= v@.len(),
            forall|j: int| 0 <= j < i ==> v@[j]@ != s@,
        decreases v@.len() - i,
    {
        if v[i] == *s {
            proof {
                assert(texts(v@)[i as int] == s@);
            }
            return true;
        }
        i = i + 1;
    }
    proof {
        if texts(v@).contains(s@) {
            let j = choose|j: int| 0 <= j < texts(v@).len() && texts(v@)[j] == s@;
            assert(v@[j]@ == s@);
        }
    }
    false
}

/// The ids of the placed orders once `order_id` is recorded as placed: an
/// empty id (no order was placed) is not recorded.
pub open spec fn with_order(ordered: Set<Seq<char>>, order_id: Seq<char>) -> Set<Seq<char>> {
    if order_id.len() == 0 {
        ordered
    } else {
        ordered.insert(order_id)
    }
}

/// The ids of the ready orders once a report for `order_id` has come: only
/// a placed order becomes ready.
pub open spec fn with_report(
    ordered: Set<Seq<char>>,
    ready: Set<Seq<char>>,
    order_id: Seq<char>,
) -> Set<Seq<char>> {
    if ordered.contains(order_id) {
        ready.insert(order_id)
    } else {
        ready
    }
}

/// The ids of the ready orders once reports for `reports` have come, one
/// after the other.
pub open spec fn with_reports(
    ordered: Set<Seq<char>>,
    ready: Set<Seq<char>>,
    reports: Seq<Seq<char>>,
) -> Set<Seq<char>>
    decreases reports.len(),
{
    if reports.len() == 0 {
        ready
    } else {
        with_report(ordered, with_reports(ordered, ready, reports.drop_last()), reports.last())
    }
}

/// Recording the same placed order twice is recording it once.
pub proof fn law_order_recorded_once(ordered: Set<Seq<char>>, order_id: Seq<char>)
    ensures
        with_order(with_order(ordered, order_id), order_id) == with_order(ordered, order_id),
{
    assert(with_order(with_order(ordered, order_id), order_id) =~= with_order(ordered, order_id));
}

/// A second report for the same order changes nothing.
pub proof fn law_report_recorded_once(
    ordered: Set<Seq<char>>,
    ready: Set<Seq<char>>,
    order_id: Seq<char>,
)
    ensures
        with_report(ordered, with_report(ordered, ready, order_id), order_id) == with_report(
            ordered,
            ready,
            order_id,
        ),
{
    assert(with_report(ordered, with_report(ordered, ready, order_id), order_id) =~= with_report(
        ordered,
        ready,
        order_id,
    ));
}

/// Whatever reports come, only placed orders are ever ready.
pub proof fn law_only_placed_ready(
    ordered: Set<Seq<char>>,
    ready: Set<Seq<char>>,
    reports: Seq<Seq<char>>,
)
    requires
        ready.subset_of(ordered),
    ensures
        with_reports(ordered, ready, reports).subset_of(ordered),
    decreases reports.len(),
{
    if reports.len() > 0 {
        law_only_placed_ready(ordered, ready, reports.drop_last());
    }
}

/// Each placed order that a report named is ready.
proof fn lemma_reported_ready(
    ordered: Set<Seq<char>>,
    ready: Set<Seq<char>>,
    reports: Seq<Seq<char>>,
    order_id: Seq<char>,
)
    requires
        ordered.contains(order_id),
        reports.contains(order_id),
    ensures
        with_reports(ordered, ready, reports).contains(order_id),
    decreases reports.len(),
{
    if reports.last() != order_id {
        let k = choose|k: int| 0 <= k < reports.len() && reports[k] == order_id;
        assert(reports.drop_last()[k] == order_id);
        lemma_reported_ready(ordered, ready, reports.drop_last(), order_id);
    }
}

/// Once a report has come for every placed order, every placed order is
/// ready, so the bot is ready to cancel them all.
pub proof fn law_all_reported_all_ready(
    ordered: Set<Seq<char>>,
    ready: Set<Seq<char>>,
    reports: Seq<Seq<char>>,
)
    requires
        ready.subset_of(ordered),
        forall|id: Seq<char>| ordered.contains(id) ==> reports.contains(id),
    ensures
        with_reports(ordered, ready, reports) == ordered,
{
    law_only_placed_ready(ordered, ready, reports);
    assert forall|id: Seq<char>| ordered.contains(id) implies #[trigger] with_reports(
        ordered,
        ready,
        reports,
    ).contains(id) by {
        lemma_reported_ready(ordered, ready, reports, id);
    }
    assert(with_reports(ordered, ready, reports) =~= ordered);
}

/// The orders the bot has placed, and those of them for which an execution
/// report has come back, so that they can be cancelled. Each is kept once.
pub struct CancelTracker {
    ordered: Vec<String>,
    ready: Vec<String>,
}

impl CancelTracker {
    /// The ids of the orders placed.
    pub closed spec fn ordered_ids(&self) -> Set<Seq<char>> {
        texts(self.ordered@).to_set()
    }

    /// The ids of the placed orders that an execution report has named.
    pub closed spec fn ready_ids(&self) -> Set<Seq<char>> {
        texts(self.ready@).to_set()
    }

    /// Each id is kept once, and only placed orders are ready.
    pub closed spec fn wf(&self) -> bool {
        &&& texts(self.ordered@).no_duplicates()
        &&& texts(self.ready@).no_duplicates()
        &&& self.ready_ids().subset_of(self.ordered_ids())
    }

    /// A tracker of no orders.
    pub fn new() -> (t: CancelTracker)
        ensures
            t.wf(),
            t.ordered_ids() == Set::<Seq<char>>::empty(),
            t.ready_ids() == Set::<Seq<char>>::empty(),
    {
        let t = CancelTracker { ordered: Vec::new(), ready: Vec::new() };
        proof {
            assert(texts(t.ordered@).to_set() =~= Set::<Seq<char>>::empty());
            assert(texts(t.ready@).to_set() =~= Set::<Seq<char>>::empty());
        }
        t
    }

    /// Records the id that placing an order returned; an empty id (no order
    /// was placed) changes nothing.
    pub fn record_order(&mut self, order_id: String)
        requires
            old(self).wf(),
        ensures
            final(self).wf(),
            final(self).ordered_ids() == with_order(old(self).ordered_ids(), order_id@),
            final(self).ready_ids() == old(self).ready_ids(),
    {
        if order_id.as_str().is_empty() || contains_text(&self.ordered, &order_id) {
            proof {
                if order_id@.len() != 0 {
                    assert(self.ordered_ids().insert(order_id@) =~= self.ordered_ids());
                }
            }
            return;
        }
        let ghost before = texts(self.ordered@);
        self.ordered.push(order_id);
        proof {
            assert(texts(self.ordered@) =~= before.push(order_id@));
            before.lemma_push_to_set_commute(order_id@);
            assert(texts(self.ordered@).no_duplicates()) by {
                assert forall|i: int, j: int|
                    0 <= i < texts(self.ordered@).len() && 0 <= j < texts(self.ordered@).len()
                        && i != j implies texts(self.ordered@)[i] != texts(self.ordered@)[j] by {
                    if i < before.len() && j < before.len() {
                    } else if i == before.len() {
                        assert(before.contains(before[j]));
                    } else {
                        assert(before.contains(before[i]));
                    }
                }
            }
        }
    }

    /// Records an execution report for `order_id`: the order is ready to be
    /// cancelled if the bot placed it, and nothing changes otherwise.
    pub fn record_report(&mut self, order_id: String)
        requires
            old(self).wf(),
        ensures
            final(self).wf(),
            final(self).ordered_ids() == old(self).ordered_ids(),
            final(self).ready_ids() == with_report(
                old(self).ordered_ids(),
                old(self).ready_ids(),
                order_id@,
            ),
    {
        if !contains_text(&self.ordered, &order_id) {
            return;
        }
        if contains_text(&self.ready, &order_id) {
            proof {
                assert(self.ready_ids().insert(order_id@) =~= self.ready_ids());
            }
            return;
        }
        let ghost before = texts(self.ready@);
        self.ready.push(order_id);
        proof {
            assert(texts(self.ready@) =~= before.push(order_id@));
            before.lemma_push_to_set_commute(order_id@);
            assert(texts(self.ready@).no_duplicates()) by {
                assert forall|i: int, j: int|
                    0 <= i < texts(self.ready@).len() && 0 <= j < texts(self.ready@).len()
                        && i != j implies texts(self.ready@)[i] != texts(self.ready@)[j] by {
                    if i < before.len() && j < before.len() {
                    } else if i == before.len() {
                        assert(before.contains(before[j]));
                    } else {
                        assert(before.contains(before[i]));
                    }
                }
            }
        }
    }

    /// Whether every order placed has had its execution report: the bot then
    /// stops reading reports and cancels them.
    pub fn ready_to_cancel(&self) -> (r: bool)
        requires
            self.wf(),
        ensures
            r == (self.ready_ids() == self.ordered_ids()),
    {
        let r = self.ready.len() >= self.ordered.len();
        proof {
            texts(self.ready@).unique_seq_to_set();
            texts(self.ordered@).unique_seq_to_set();
            vstd::set_lib::lemma_len_subset(self.ready_ids(), self.ordered_ids());
            if r {
                vstd::set_lib::lemma_subset_equality(self.ready_ids(), self.ordered_ids());
            }
        }
        r
    }

    /// Whether the bot has placed `MAX_ORDER` orders or more, when it stops
    /// reading market data.
    pub fn order_limit_reached(&self) -> (r: bool)
        requires
            self.wf(),
        ensures
            r == (self.ordered_ids().len() >= MAX_ORDER),
    {
        proof {
            texts(self.ordered@).unique_seq_to_set();
        }
        self.ordered.len() >= MAX_ORDER
    }

    /// The orders to cancel: each ready order once.
    pub fn orders_to_cancel(&self) -> (r: Vec<String>)
        requires
            self.wf(),
        ensures
            texts(r@).no_duplicates(),
            texts(r@).to_set() == self.ready_ids(),
    {
        let r = self.ready.clone();
        proof {
            assert(texts(r@) =~= texts(self.ready@)) by {
                assert forall|i: int| 0 <= i < r@.len() implies r@[i]@ == self.ready@[i]@ by {
                    assert(r@[i] == self.ready@[i]);
                }
            }
        }
        r
    }
}

/// The JSON text that decoding `reply` gives, where it gives one.
pub open spec fn decoded_text(reply: Seq<u8>) -> Option<Seq<char>> {
    match flow_decoder_outcome(reply) {
        DecoderOutcome::Text(t) => Some(t),
        _ => None,
    }
}

/// The text of the member `name` of the `Body` of a decoded message, where
/// it is a string, and the empty text otherwise.
pub open spec fn body_text_or_empty(t: Seq<char>, name: Seq<char>) -> Seq<char> {
    match json_section_member(t, "Body"@, name) {
        Some(Some(v)) => v,
        _ => Seq::empty(),
    }
}

/// Reads the member `name` of the `Body` of `text` as `body_text_or_empty`
/// states it.
fn body_member_or_empty(text: &str, name: &str) -> (r: String)
    ensures
        r@ == body_text_or_empty(text@, name@),
{
    match parse_section_member(text, "Body", name) {
        Some(Some(v)) => v,
        _ => String::new(),
    }
}

/// The id of the order that the reply to a new order names: the `OrderID`
/// of the decoded reply's body, or the empty text where there is none (the
/// bot then records no order). The reply must decode (where it does not,
/// `try_reply_order_id` returns `None`).
pub fn reply_order_id(reply: &[u8]) -> (r: String)
    requires
        decoded_text(reply@) is Some,
    ensures
        r@ == body_text_or_empty(decoded_text(reply@).unwrap(), "OrderID"@),
{
    match try_flow_decoder(reply) {
        Some(Ok(text)) => body_member_or_empty(text.as_str(), "OrderID"),
        _ => String::new(),
    }
}

/// The id that `reply_order_id` reads where the reply decodes, and `None`
/// where it does not.
pub fn try_reply_order_id(reply: &[u8]) -> (r: Option<String>)
    ensures
        r is Some <==> decoded_text(reply@) is Some,
        r matches Some(id) ==> id@ == body_text_or_empty(decoded_text(reply@).unwrap(), "OrderID"@),
{
    match try_flow_decoder(reply) {
        Some(Ok(_)) => Some(reply_order_id(reply)),
        _ => None,
    }
}

/// What an execution report that the bot reads tells it.
#[derive(Debug, PartialEq, Eq)]
pub enum ReportEvent {
    /// The connection gave no bytes: the bot stops reading reports.
    Closed,
    /// The report does not decode, or is no JSON: the bot reads the next.
    Skipped,
    /// The report is about the order with this `ClOrdID`.
    Order(String),
}

/// What reading an execution report leads to, in terms of texts.
pub enum ReportOutcome {
    Panics,
    Closed,
    Skipped,
    Order(Seq<char>),
}

/// What the bot makes of the bytes `report` read from the drop-copy
/// connection: none means the connection closed; a report that does not
/// decode is skipped; a decoded one must name its `ClOrdID` as a string
/// (else the bot panics).
pub open spec fn report_outcome(report: Seq<u8>) -> ReportOutcome {
    if report.len() == 0 {
        ReportOutcome::Closed
    } else {
        match flow_decoder_outcome(report) {
            DecoderOutcome::Panics => ReportOutcome::Panics,
            DecoderOutcome::Fails(_) => ReportOutcome::Skipped,
            DecoderOutcome::Text(t) => match json_section_member(t, "Body"@, "ClOrdID"@) {
                None => ReportOutcome::Skipped,
                Some(None) => ReportOutcome::Panics,
                Some(Some(id)) => ReportOutcome::Order(id),
            },
        }
    }
}

/// Whether the event is the outcome.
pub open spec fn report_event_is(o: ReportOutcome, e: ReportEvent) -> bool {
    match o {
        ReportOutcome::Panics => false,
        ReportOutcome::Closed => e is Closed,
        ReportOutcome::Skipped => e is Skipped,
        ReportOutcome::Order(id) => e matches ReportEvent::Order(s) && s@ == id,
    }
}

/// Reads an execution report as `report_outcome` states it, or returns
/// `None` where the bot would panic.
fn report_checked(report: &[u8]) -> (r: Option<ReportEvent>)
    ensures
        match r {
            None => report_outcome(report@) is Panics,
            Some(e) => report_event_is(report_outcome(report@), e),
        },
{
    if report.len() == 0 {
        return Some(ReportEvent::Closed);
    }
    match try_flow_decoder(report) {
        None => None,
        Some(Err(_)) => Some(ReportEvent::Skipped),
        Some(Ok(text)) => match parse_section_member(text.as_str(), "Body", "ClOrdID") {
            None => Some(ReportEvent::Skipped),
            Some(None) => None,
            Some(Some(id)) => Some(ReportEvent::Order(id)),
        },
    }
}

/// What the execution report `report` tells the bot (see
/// `report_outcome`). The inputs on which the bot panics are left out;
/// `try_report_event` tells them apart.
pub fn report_event(report: &[u8]) -> (e: ReportEvent)
    requires
        !(report_outcome(report@) is Panics),
    ensures
        report_event_is(report_outcome(report@), e),
{
    match report_checked(report) {
        Some(e) => e,
        None => ReportEvent::Skipped,
    }
}

/// What `report_event` gives where the bot does not panic, and `None` where
/// it does.
pub fn try_report_event(report: &[u8]) -> (r: Option<ReportEvent>)
    ensures
        r is None <==> report_outcome(report@) is Panics,
        r matches Some(e) ==> report_event_is(report_outcome(report@), e),
{
    match report_checked(report) {
        None => None,
        Some(_) => Some(report_event(report)),
    }
}

/// A price level that market data announced, for the bot to answer with an
/// order: the price and quantity as text, and the side.
#[derive(Debug, PartialEq, Eq)]
pub struct OrderBookUpdate {
    pub price: String,
    pub qty: String,
    pub side: i8,
}

/// What a market-data message that the bot reads tells it.
#[derive(Debug, PartialEq, Eq)]
pub enum MarketEvent {
    /// The connection gave no bytes: the bot stops reading market data.
    Closed,
    /// Nothing to do with this message.
    Skipped,
    /// An update to put in the order-book queue.
    Update(OrderBookUpdate),
}

/// What reading a market-data message leads to, in terms of texts.
pub enum MarketOutcome {
    Panics,
    Closed,
    Skipped,
    Update(Seq<char>, Seq<char>, i8),
}

/// What the bot makes of the bytes `update` read from the market-data
/// connection, while it trades `symbol` and its order-book queue is full or
/// not: none means the connection closed; a message that does not decode, or
/// is no JSON, is skipped; a decoded one must name its `Symbol` as a string
/// (else the bot panics). A message for another symbol, or one that comes
/// while the queue is full, is skipped. Else its `Side` must be an `i8` (else
/// the bot panics), and the update takes its `MDEntryPx` as price and as
/// quantity alike, the empty text where it has none.
pub open spec fn market_outcome(update: Seq<u8>, symbol: Seq<char>, book_full: bool) -> MarketOutcome {
    if update.len() == 0 {
        MarketOutcome::Closed
    } else {
        match flow_decoder_outcome(update) {
            DecoderOutcome::Panics => MarketOutcome::Panics,
            DecoderOutcome::Fails(_) => MarketOutcome::Skipped,
            DecoderOutcome::Text(t) => match json_section_member(t, "Body"@, "Symbol"@) {
                None => MarketOutcome::Skipped,
                Some(None) => MarketOutcome::Panics,
                Some(Some(s)) => if s != symbol || book_full {
                    MarketOutcome::Skipped
                } else {
                    let px = body_text_or_empty(t, "MDEntryPx"@);
                    match i8_text_value(body_text_or_empty(t, "Side"@)) {
                        None => MarketOutcome::Panics,
                        Some(side) => MarketOutcome::Update(px, px, side),
                    }
                },
            },
        }
    }
}

/// A full order-book queue turns into a skip every update that the bot
/// would otherwise queue (and every panic on its `Side`, which it no longer
/// reads), and leaves every other outcome as it is; with a full queue no
/// update is ever queued.
pub proof fn law_full_book_skips_updates(update: Seq<u8>, symbol: Seq<char>)
    ensures
        market_outcome(update, symbol, false) is Update ==> market_outcome(update, symbol, true) is Skipped,
        market_outcome(update, symbol, true) == market_outcome(update, symbol, false) || (market_outcome(
            update,
            symbol,
            true,
        ) is Skipped && (market_outcome(update, symbol, false) is Update || market_outcome(
            update,
            symbol,
            false,
        ) is Panics)),
        !(market_outcome(update, symbol, true) is Update),
{
}

/// An update takes one text as its price and its quantity alike, and is
/// only ever made from a message that decodes, names the traded symbol in
/// its body, and comes while the queue has room. Empty bytes mean the
/// connection closed.
pub proof fn law_update_from_own_symbol(update: Seq<u8>, symbol: Seq<char>, book_full: bool)
    ensures
        update.len() == 0 ==> market_outcome(update, symbol, book_full) is Closed,
        market_outcome(update, symbol, book_full) matches MarketOutcome::Update(price, qty, _) ==> {
            &&& price == qty
            &&& !book_full
            &&& decoded_text(update) matches Some(t) && json_section_member(t, "Body"@, "Symbol"@)
                == Some(Some(symbol))
        },
{
}

/// Whether the event is the outcome.
pub open spec fn market_event_is(o: MarketOutcome, e: MarketEvent) -> bool {
    match o {
        MarketOutcome::Panics => false,
        MarketOutcome::Closed => e is Closed,
        MarketOutcome::Skipped => e is Skipped,
        MarketOutcome::Update(price, qty, side) => e matches MarketEvent::Update(u) && u.price@
            == price && u.qty@ == qty && u.side == side,
    }
}

/// Reads a market-data message as `market_outcome` states it, or returns
/// `None` where the bot would panic.
fn market_checked(update: &[u8], symbol: &str, book_full: bool) -> (r: Option<MarketEvent>)
    ensures
        match r {
            None => market_outcome(update@, symbol@, book_full) is Panics,
            Some(e) => market_event_is(market_outcome(update@, symbol@, book_full), e),
        },
{
    if update.len() == 0 {
        return Some(MarketEvent::Closed);
    }
    let text = match try_flow_decoder(update) {
        None => return None,
        Some(Err(_)) => return Some(MarketEvent::Skipped),
        Some(Ok(text)) => text,
    };
    let s = match parse_section_member(text.as_str(), "Body", "Symbol") {
        None => return Some(MarketEvent::Skipped),
        Some(None) => return None,
        Some(Some(s)) => s,
    };
    if !(s == symbol.to_owned()) || book_full {
        return Some(MarketEvent::Skipped);
    }
    let price = body_member_or_empty(text.as_str(), "MDEntryPx");
    let qty = body_member_or_empty(text.as_str(), "MDEntryPx");
    let side_text = body_member_or_empty(text.as_str(), "Side");
    match parse_i8(side_text.as_str()) {
        None => None,
        Some(side) => Some(MarketEvent::Update(OrderBookUpdate { price, qty, side })),
    }
}

/// What the market-data message `update` tells the bot (see
/// `market_outcome`). The inputs on which the bot panics are left out;
/// `try_market_data_event` tells them apart.
pub fn market_data_event(update: &[u8], symbol: &str, book_full: bool) -> (e: MarketEvent)
    requires
        !(market_outcome(update@, symbol@, book_full) is Panics),
    ensures
        market_event_is(market_outcome(update@, symbol@, book_full), e),
{
    match market_checked(update, symbol, book_full) {
        Some(e) => e,
        None => MarketEvent::Skipped,
    }
}

/// What `market_data_event` gives where the bot does not panic, and `None`
/// where it does.
pub fn try_market_data_event(update: &[u8], symbol: &str, book_full: bool) -> (r: Option<MarketEvent>)
    ensures
        r is None <==> market_outcome(update@, symbol@, book_full) is Panics,
        r matches Some(e) ==> market_event_is(market_outcome(update@, symbol@, book_full), e),
{
    match market_checked(update, symbol, book_full) {
        None => None,
        Some(_) => Some(market_data_event(update, symbol, book_full)),
    }
}

} // verus!
