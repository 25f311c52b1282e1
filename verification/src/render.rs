//! The text that presents answers on a terminal: record type labels, times
//! to live and record data, coloured with ANSI escape sequences.

use owo_colors::OwoColorize;
use vstd::prelude::*;

use crate::dns::answer::{ipv4_dotted, ipv4_text, RData, RDataView};
use crate::text::{decimal, decimal_i64, decimal_u64, signed_decimal};

verus! {

/// Text in a foreground colour: the colour's escape sequence, the text, and
/// the sequence that restores the default foreground.
pub open spec fn in_colour(code: Seq<char>, text: Seq<char>) -> Seq<char> {
    "\x1b["@ + code + "m"@ + text + "\x1b[39m"@
}

/// Text in a style: the style's escape sequence, the text, and the sequence
/// that resets all attributes.
pub open spec fn in_style(code: Seq<char>, text: Seq<char>) -> Seq<char> {
    "\x1b["@ + code + "m"@ + text + "\x1b[0m"@
}

/// `OwoColorize::red`, displayed.  The contract claims the escape sequences
/// that its `Display` implementation writes around the text.
#[verifier::external_body]
fn red(text: &str) -> (r: String)
    ensures
        r@ == in_colour("31"@, text@),
{
    text.red().to_string()
}

/// `OwoColorize::green`, displayed, as for [`red`].
#[verifier::external_body]
fn green(text: &str) -> (r: String)
    ensures
        r@ == in_colour("32"@, text@),
{
    text.green().to_string()
}

/// `OwoColorize::yellow`, displayed, as for [`red`].
#[verifier::external_body]
fn yellow(text: &str) -> (r: String)
    ensures
        r@ == in_colour("33"@, text@),
{
    text.yellow().to_string()
}

/// `OwoColorize::blue`, displayed, as for [`red`].
#[verifier::external_body]
fn blue(text: &str) -> (r: String)
    ensures
        r@ == in_colour("34"@, text@),
{
    text.blue().to_string()
}

/// `OwoColorize::magenta`, displayed, as for [`red`].
#[verifier::external_body]
fn magenta(text: &str) -> (r: String)
    ensures
        r@ == in_colour("35"@, text@),
{
    text.magenta().to_string()
}

/// `OwoColorize::purple`, displayed, as for [`red`]; purple is magenta.
#[verifier::external_body]
fn purple(text: &str) -> (r: String)
    ensures
        r@ == in_colour("35"@, text@),
{
    text.purple().to_string()
}

/// `OwoColorize::cyan`, displayed, as for [`red`].
#[verifier::external_body]
fn cyan(text: &str) -> (r: String)
    ensures
        r@ == in_colour("36"@, text@),
{
    text.cyan().to_string()
}

/// `OwoColorize::white`, displayed, as for [`red`].
#[verifier::external_body]
fn white(text: &str) -> (r: String)
    ensures
        r@ == in_colour("37"@, text@),
{
    text.white().to_string()
}

/// `OwoColorize::bright_white`, displayed, as for [`red`].
#[verifier::external_body]
fn bright_white(text: &str) -> (r: String)
    ensures
        r@ == in_colour("97"@, text@),
{
    text.bright_white().to_string()
}

/// `OwoColorize::bold`, displayed.  The contract claims the escape sequences
/// that its `Display` implementation writes around the text.
#[verifier::external_body]
fn bold(text: &str) -> (r: String)
    ensures
        r@ == in_style("1"@, text@),
{
    text.bold().to_string()
}

/// `OwoColorize::dimmed`, displayed, as for [`bold`].
#[verifier::external_body]
fn dimmed(text: &str) -> (r: String)
    ensures
        r@ == in_style("2"@, text@),
{
    text.dimmed().to_string()
}

/// The label of a record by its data: its type's name, bold, in the colour
/// of its kind.
pub open spec fn type_label(rdata: RDataView) -> Seq<char> {
    match rdata {
        RDataView::A(_) => in_style("1"@, in_colour("34"@, "A"@)),
        RDataView::Aaaa(_) => in_style("1"@, in_colour("34"@, "AAAA"@)),
        RDataView::Ns(_) => in_style("1"@, in_colour("35"@, "NS"@)),
        RDataView::Cname(_) => in_style("1"@, in_colour("33"@, "CNAME"@)),
        RDataView::Soa { .. } => in_style("1"@, in_colour("31"@, "SOA"@)),
        RDataView::Mx { .. } => in_style("1"@, in_colour("32"@, "MX"@)),
        RDataView::Txt(_) => in_style("1"@, in_colour("36"@, "TXT"@)),
        RDataView::Srv { .. } => in_style("1"@, in_colour("35"@, "SRV"@)),
        RDataView::Unknown(_) => in_style("1"@, in_colour("37"@, "?"@)),
    }
}

/// The label of a record by its data: its type's name, bold, in the colour
/// of its kind.
pub fn format_type(rdata: &RData) -> (s: String)
    ensures
        s@ == type_label(rdata@),
{
    match rdata {
        RData::A(_) => bold(blue("A").as_str()),
        RData::Aaaa(_) => bold(blue("AAAA").as_str()),
        RData::Ns(_) => bold(magenta("NS").as_str()),
        RData::Cname(_) => bold(yellow("CNAME").as_str()),
        RData::Soa { .. } => bold(red("SOA").as_str()),
        RData::Mx { .. } => bold(green("MX").as_str()),
        RData::Txt(_) => bold(cyan("TXT").as_str()),
        RData::Srv { .. } => bold(purple("SRV").as_str()),
        RData::Unknown(_) => bold(white("?").as_str()),
    }
}

/// A time to live, dimmed: `-` when negative, whole hours above an hour,
/// whole minutes from a minute, seconds below.
pub open spec fn ttl_text(ttl: i32) -> Seq<char> {
    if ttl < 0 {
        in_style("2"@, "-"@)
    } else if ttl > 3600 {
        in_style("2"@, decimal((ttl / 3600) as nat) + "h"@)
    } else if ttl >= 60 {
        in_style("2"@, decimal((ttl / 60) as nat) + "m"@)
    } else {
        in_style("2"@, decimal(ttl as nat) + "s"@)
    }
}

/// A time to live, dimmed: `-` when negative, whole hours above an hour,
/// whole minutes from a minute, seconds below.
pub fn format_ttl(ttl: i32) -> (s: String)
    ensures
        s@ == ttl_text(ttl),
{
    if ttl < 0 {
        return dimmed("-");
    }
    let ttl = ttl as u32;
    if ttl > 3600 {
        let mut t = decimal_u64((ttl / 3600) as u64);
        t.append("h");
        dimmed(t.as_str())
    } else if ttl >= 60 {
        let mut t = decimal_u64((ttl / 60) as u64);
        t.append("m");
        dimmed(t.as_str())
    } else {
        let mut t = decimal_u64(ttl as u64);
        t.append("s");
        dimmed(t.as_str())
    }
}

/// A time to live is shown by its sign and size: `-` when negative; above
/// an hour, the number `k` of whole hours in it, that is with
/// `k * 3600 <= ttl < (k + 1) * 3600`, then `h`; from a minute to an hour,
/// the whole minutes `k`, with `k * 60 <= ttl < (k + 1) * 60`, then `m`;
/// below a minute, the seconds, then `s`.  Always dimmed.
pub proof fn lemma_ttl_shown(ttl: i32, k: nat)
    ensures
        ttl < 0 ==> ttl_text(ttl) == in_style("2"@, "-"@),
        ttl > 3600 && k * 3600 <= ttl < (k + 1) * 3600 ==> ttl_text(ttl) == in_style(
            "2"@,
            decimal(k) + "h"@,
        ),
        60 <= ttl <= 3600 && k * 60 <= ttl < (k + 1) * 60 ==> ttl_text(ttl) == in_style(
            "2"@,
            decimal(k) + "m"@,
        ),
        0 <= ttl < 60 && k == ttl ==> ttl_text(ttl) == in_style("2"@, decimal(k) + "s"@),
{
    if ttl > 3600 && k * 3600 <= ttl < (k + 1) * 3600 {
        assert(ttl / 3600 == k) by (nonlinear_arith)
            requires
                k * 3600 <= ttl < (k + 1) * 3600,
        ;
    }
    if 60 <= ttl <= 3600 && k * 60 <= ttl < (k + 1) * 60 {
        assert(ttl / 60 == k) by (nonlinear_arith)
            requires
                k * 60 <= ttl < (k + 1) * 60,
        ;
    }
}

/// The character strings of TXT data, each in double quotes, separated by
/// spaces.
pub open spec fn quoted_strings(strings: Seq<Seq<char>>) -> Seq<char>
    decreases strings.len(),
{
    if strings.len() == 0 {
        seq![]
    } else if strings.len() == 1 {
        "\""@ + strings[0] + "\""@
    } else {
        quoted_strings(strings.drop_last()) + " "@ + "\""@ + strings.last() + "\""@
    }
}

/// The text of record data.  `ipv6` stands for the text of the address of
/// AAAA data, which is made elsewhere.
pub open spec fn rdata_text(rdata: RDataView, ipv6: Seq<char>) -> Seq<char> {
    match rdata {
        RDataView::A(bits) => in_colour("32"@, ipv4_dotted(bits)),
        RDataView::Aaaa(_) => in_colour("32"@, ipv6),
        RDataView::Ns(ns) => in_colour("97"@, ns),
        RDataView::Cname(target) => "-> "@ + in_colour("97"@, target),
        RDataView::Soa { mname, rname, serial, refresh, retry, expire, minimum } => "MNAME="@ + mname
            + " RNAME="@ + rname + "\n\n                SERIAL="@ + decimal(serial as nat)
            + " REFRESH="@ + signed_decimal(refresh as int) + "\n \n                RETRY="@
            + signed_decimal(retry as int) + " EXPIRE="@ + signed_decimal(expire as int)
            + " MINIMUM="@ + decimal(minimum as nat),
        RDataView::Mx { preference, exchange } => decimal(preference as nat) + " "@ + in_colour(
            "97"@,
            exchange,
        ),
        RDataView::Txt(strings) => quoted_strings(strings),
        RDataView::Srv { priority, weight, port, target } => "\n        priority="@ + decimal(
            priority as nat,
        ) + " weight="@ + decimal(weight as nat) + " port="@ + decimal(port as nat)
            + " target="@ + in_colour("97"@, target) + "\n            "@,
        RDataView::Unknown(bytes) => in_style(
            "2"@,
            "\n                <"@ + decimal(bytes.len()) + " bytes of unknown data>\n                    "@,
        ),
    }
}

/// The text of record data, coloured.  `ipv6` is the text of the address of
/// AAAA data; other data does not use it.
pub fn format_rdata(rdata: &RData, ipv6: &str) -> (s: String)
    ensures
        s@ == rdata_text(rdata@, ipv6@),
{
    match rdata {
        RData::A(bits) => green(ipv4_text(*bits).as_str()),
        RData::Aaaa(_) => green(ipv6),
        RData::Ns(ns) => bright_white(ns.as_str()),
        RData::Cname(target) => {
            let mut s = String::from_str("-> ");
            s.append(bright_white(target.as_str()).as_str());
            s
        },
        RData::Soa { mname, rname, serial, refresh, retry, expire, minimum } => {
            let mut s = String::from_str("MNAME=");
            s.append(mname.as_str());
            s.append(" RNAME=");
            s.append(rname.as_str());
            s.append("\n\n                SERIAL=");
            s.append(decimal_u64(*serial as u64).as_str());
            s.append(" REFRESH=");
            s.append(decimal_i64(*refresh as i64).as_str());
            s.append("\n \n                RETRY=");
            s.append(decimal_i64(*retry as i64).as_str());
            s.append(" EXPIRE=");
            s.append(decimal_i64(*expire as i64).as_str());
            s.append(" MINIMUM=");
            s.append(decimal_u64(*minimum as u64).as_str());
            s
        },
        RData::Mx { preference, exchange } => {
            let mut s = decimal_u64(*preference as u64);
            s.append(" ");
            s.append(bright_white(exchange.as_str()).as_str());
            s
        },
        RData::Txt(strings) => {
            let mut s = String::new();
            let n = strings.len();
            for i in 0..n
                invariant
                    n == strings@.len(),
                    s@ == quoted_strings(strings@.map_values(|t: String| t@).take(i as int)),
            {
                if i > 0 {
                    s.append(" ");
                }
                s.append("\"");
                s.append(strings[i].as_str());
                s.append("\"");
                proof {
                    let all = strings@.map_values(|t: String| t@);
                    assert(all.take(i + 1).drop_last() =~= all.take(i as int));
                    assert(all.take(0) =~= Seq::<Seq<char>>::empty());
                }
            }
            proof {
                let all = strings@.map_values(|t: String| t@);
                assert(all.take(n as int) =~= all);
            }
            s
        },
        RData::Srv { priority, weight, port, target } => {
            let mut s = String::from_str("\n        priority=");
            s.append(decimal_u64(*priority as u64).as_str());
            s.append(" weight=");
            s.append(decimal_u64(*weight as u64).as_str());
            s.append(" port=");
            s.append(decimal_u64(*port as u64).as_str());
            s.append(" target=");
            s.append(bright_white(target.as_str()).as_str());
            s.append("\n            ");
            s
        },
        RData::Unknown(bytes) => {
            let mut s = String::from_str("\n                <");
            s.append(decimal_u64(bytes.len() as u64).as_str());
            s.append(" bytes of unknown data>\n                    ");
            dimmed(s.as_str())
        },
    }
}

/// The line that heads the answers about `domain`: a yellow arrow, the
/// domain in bold cyan, then, when there are none, that there are no
/// records of the type asked for, and otherwise the number of answers in
/// parentheses, with the plural unless there is one.
pub open spec fn summary_text(domain: Seq<char>, count: nat) -> Seq<char> {
    in_colour("33"@, "->"@) + " "@ + in_style("1"@, in_colour("36"@, domain)) + " "@ + if count == 0 {
        "has no records of the requested type"@
    } else {
        "("@ + decimal(count) + " answer"@ + (if count == 1 {
            ""@
        } else {
            "s"@
        }) + ")"@
    }
}

/// The line that heads the answers about `domain`, of which there are
/// `count`.
pub fn summary_line(domain: &str, count: usize) -> (s: String)
    ensures
        s@ == summary_text(domain@, count as nat),
{
    let mut s = yellow("->");
    s.append(" ");
    s.append(bold(cyan(domain).as_str()).as_str());
    s.append(" ");
    let ghost head = in_colour("33"@, "->"@) + " "@ + in_style("1"@, in_colour("36"@, domain@)) + " "@;
    assert(s@ =~= head);
    if count == 0 {
        s.append("has no records of the requested type");
    } else {
        let number = decimal_u64(count as u64);
        let ghost plural = if count == 1 {
            ""@
        } else {
            "s"@
        };
        s.append("(");
        s.append(number.as_str());
        s.append(" answer");
        if count != 1 {
            s.append("s");
        } else {
            assert(s@ + ""@ =~= s@) by {
                reveal_strlit("");
            }
        }
        s.append(")");
        assert(s@ =~= head + ("("@ + decimal(count as nat) + " answer"@ + plural + ")"@));
    }
    s
}

} // verus!
