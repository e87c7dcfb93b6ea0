use vstd::prelude::*;
use crate::stats::{IpAddress, PacketStats};
use crate::table::{CounterTable, InterfaceStats, IpEntry, ip_map, tbl_map};
use crate::text::{
    digit_byte, digit_val, digits_of, is_digit_b, run_end, val_of, lemma_digits_of,
    lemma_run_end_digits, parse_num, render_num,
};
use vstd::arithmetic::div_mod::lemma_fundamental_div_mod;

verus! {

pub const Q: u8 = 34;
pub const COMMA: u8 = 44;
pub const DOT: u8 = 46;
pub const COLON: u8 = 58;
pub const BACKSLASH: u8 = 92;
pub const LBRACE: u8 = 123;
pub const RBRACE: u8 = 125;

/// The decimal digits of a 64-bit count.
pub open spec fn dec(n: u64) -> Seq<u8> {
    digits_of(10, n as int)
}

/// The lowercase hexadecimal digits of one IPv6 group.
pub open spec fn hexd(g: u16) -> Seq<u8> {
    digits_of(16, g as int)
}

/// The text of an address: dotted decimal for IPv4, eight hexadecimal
/// groups separated by colons for IPv6.
pub open spec fn render_ip(ip: IpAddress) -> Seq<u8> {
    match ip {
        IpAddress::V4 { a, b, c, d } => dec(a as u64) + seq![DOT] + dec(b as u64) + seq![DOT]
            + dec(c as u64) + seq![DOT] + dec(d as u64),
        IpAddress::V6 { g0, g1, g2, g3, g4, g5, g6, g7 } => hexd(g0) + seq![COLON] + hexd(g1)
            + seq![COLON] + hexd(g2) + seq![COLON] + hexd(g3) + seq![COLON] + hexd(g4)
            + seq![COLON] + hexd(g5) + seq![COLON] + hexd(g6) + seq![COLON] + hexd(g7),
    }
}

/// The bytes of `{"count":`.
pub open spec fn lit_count() -> Seq<u8> {
    seq![LBRACE, Q, 99u8, 111u8, 117u8, 110u8, 116u8, Q, COLON]
}

/// The bytes of `,"size":`.
pub open spec fn lit_size() -> Seq<u8> {
    seq![COMMA, Q, 115u8, 105u8, 122u8, 101u8, Q, COLON]
}

/// The quoted key `"count"`.
pub open spec fn lit_countq() -> Seq<u8> {
    seq![Q, 99u8, 111u8, 117u8, 110u8, 116u8, Q]
}

/// The quoted key `"size"`.
pub open spec fn lit_sizeq() -> Seq<u8> {
    seq![Q, 115u8, 105u8, 122u8, 101u8, Q]
}

/// The document object one key's stats become.
pub open spec fn render_stats(st: PacketStats) -> Seq<u8> {
    lit_count() + dec(st.count) + lit_size() + dec(st.size) + seq![RBRACE]
}

/// One member of a per-interface document: the address as a quoted key,
/// then the stats object.
pub open spec fn render_ip_entry(e: IpEntry) -> Seq<u8> {
    seq![Q] + render_ip(e.ip) + seq![Q, COLON] + render_stats(e.stats)
}

/// The members of a per-interface document, comma-separated.
pub open spec fn render_ip_entries(s: Seq<IpEntry>) -> Seq<u8>
    decreases s.len(),
{
    if s.len() == 0 {
        Seq::empty()
    } else if s.len() == 1 {
        render_ip_entry(s[0])
    } else {
        render_ip_entry(s[0]) + seq![COMMA] + render_ip_entries(s.drop_first())
    }
}

/// The document written for one interface: its address-to-stats object.
pub open spec fn render_iface_doc(entries: Seq<IpEntry>) -> Seq<u8> {
    seq![LBRACE] + render_ip_entries(entries) + seq![RBRACE]
}

/// One member of the combined document: the interface name as a quoted
/// key, then its per-interface object.
pub open spec fn render_tbl_entry(f: InterfaceStats) -> Seq<u8> {
    seq![Q] + esc_name(f.name@) + seq![Q, COLON] + render_iface_doc(f.entries@)
}

/// The members of the combined document, comma-separated.
pub open spec fn render_tbl_entries(s: Seq<InterfaceStats>) -> Seq<u8>
    decreases s.len(),
{
    if s.len() == 0 {
        Seq::empty()
    } else if s.len() == 1 {
        render_tbl_entry(s[0])
    } else {
        render_tbl_entry(s[0]) + seq![COMMA] + render_tbl_entries(s.drop_first())
    }
}

/// The combined snapshot document of a whole table.
pub open spec fn render_table(s: Seq<InterfaceStats>) -> Seq<u8> {
    seq![LBRACE] + render_tbl_entries(s) + seq![RBRACE]
}

/// How one byte of an interface name stands in a document: quote and
/// backslash escaped, control bytes written as a four-digit escape, all
/// else verbatim.
pub open spec fn esc_byte(b: u8) -> Seq<u8> {
    if b == Q {
        seq![BACKSLASH, Q]
    } else if b == BACKSLASH {
        seq![BACKSLASH, BACKSLASH]
    } else if b < 32 {
        seq![BACKSLASH, 117u8, 48u8, 48u8, digit_byte((b as int) / 16), digit_byte((b as int) % 16)]
    } else {
        seq![b]
    }
}

/// The escaped text of a whole name.
pub open spec fn esc_name(n: Seq<u8>) -> Seq<u8>
    decreases n.len(),
{
    if n.len() == 0 {
        Seq::empty()
    } else {
        esc_byte(n[0]) + esc_name(n.drop_first())
    }
}

/// The insignificant bytes a document may hold between its tokens.
pub open spec fn is_ws(b: u8) -> bool {
    b == 32 || b == 9 || b == 10 || b == 13
}

/// Where the run of such bytes that starts at `i` ends.
pub open spec fn ws_end(s: Seq<u8>, i: int) -> int
    decreases s.len() - i,
{
    if 0 <= i && i < s.len() && is_ws(s[i]) {
        ws_end(s, i + 1)
    } else {
        i
    }
}

proof fn lemma_ws_end_bounds(s: Seq<u8>, i: int)
    requires
        0 <= i <= s.len(),
    ensures
        i <= ws_end(s, i) <= s.len(),
        ws_end(s, i) < s.len() ==> !is_ws(s[ws_end(s, i)]),
    decreases s.len() - i,
{
    if i < s.len() && is_ws(s[i]) {
        lemma_ws_end_bounds(s, i + 1);
    }
}

proof fn lemma_ip_entries_snoc(s: Seq<IpEntry>, e: IpEntry)
    ensures
        render_ip_entries(s.push(e)) == render_ip_entries(s) + (if s.len() == 0 {
            Seq::<u8>::empty()
        } else {
            seq![COMMA]
        }) + render_ip_entry(e),
    decreases s.len(),
{
    let t = s.push(e);
    if s.len() == 0 {
        assert(t.len() == 1 && t[0] == e);
        assert(render_ip_entries(t) =~= render_ip_entries(s) + Seq::<u8>::empty()
            + render_ip_entry(e));
    } else {
        assert(t.drop_first() =~= s.drop_first().push(e));
        assert(t[0] == s[0]);
        lemma_ip_entries_snoc(s.drop_first(), e);
        if s.len() == 1 {
            assert(s.drop_first().len() == 0);
            assert(render_ip_entries(t) =~= render_ip_entries(s) + seq![COMMA]
                + render_ip_entry(e));
        } else {
            assert(render_ip_entries(t) =~= render_ip_entries(s) + seq![COMMA]
                + render_ip_entry(e));
        }
    }
}

proof fn lemma_tbl_entries_snoc(s: Seq<InterfaceStats>, e: InterfaceStats)
    ensures
        render_tbl_entries(s.push(e)) == render_tbl_entries(s) + (if s.len() == 0 {
            Seq::<u8>::empty()
        } else {
            seq![COMMA]
        }) + render_tbl_entry(e),
    decreases s.len(),
{
    let t = s.push(e);
    if s.len() == 0 {
        assert(t.len() == 1 && t[0] == e);
        assert(render_tbl_entries(t) =~= render_tbl_entries(s) + Seq::<u8>::empty()
            + render_tbl_entry(e));
    } else {
        assert(t.drop_first() =~= s.drop_first().push(e));
        assert(t[0] == s[0]);
        lemma_tbl_entries_snoc(s.drop_first(), e);
        if s.len() == 1 {
            assert(s.drop_first().len() == 0);
            assert(render_tbl_entries(t) =~= render_tbl_entries(s) + seq![COMMA]
                + render_tbl_entry(e));
        } else {
            assert(render_tbl_entries(t) =~= render_tbl_entries(s) + seq![COMMA]
                + render_tbl_entry(e));
        }
    }
}

proof fn lemma_esc_name_snoc(n: Seq<u8>, b: u8)
    ensures
        esc_name(n.push(b)) == esc_name(n) + esc_byte(b),
    decreases n.len(),
{
    reveal_with_fuel(esc_name, 3);
    if n.len() == 0 {
        assert(n.push(b).drop_first() =~= Seq::<u8>::empty());
        assert(n.push(b)[0] == b);
        assert(esc_name(n.push(b)) =~= esc_name(n) + esc_byte(b));
    } else {
        assert(n.push(b).drop_first() =~= n.drop_first().push(b));
        assert(n.push(b)[0] == n[0]);
        lemma_esc_name_snoc(n.drop_first(), b);
        assert(esc_name(n.push(b)) == esc_byte(n[0]) + esc_name(n.drop_first().push(b)));
        assert(esc_name(n.push(b)) == esc_byte(n[0]) + (esc_name(n.drop_first()) + esc_byte(b)));
        assert(esc_name(n.push(b)) =~= esc_name(n) + esc_byte(b));
    }
}

/// Append a copy of `src`, escaped as a document holds a name.
fn push_name_escaped(src: &Vec<u8>, out: &mut Vec<u8>)
    ensures
        final(out)@ == old(out)@ + esc_name(src@),
{
    let mut i: usize = 0;
    proof {
        assert(src@.subrange(0, 0) =~= Seq::<u8>::empty());
        assert(out@ =~= old(out)@ + esc_name(src@.subrange(0, 0)));
    }
    while i < src.len()
        invariant
            i <= src@.len(),
            out@ == old(out)@ + esc_name(src@.subrange(0, i as int)),
        decreases src@.len() - i,
    {
        let b = src[i];
        if b == Q {
            out.push(BACKSLASH);
            out.push(Q);
        } else if b == BACKSLASH {
            out.push(BACKSLASH);
            out.push(BACKSLASH);
        } else if b < 32 {
            out.push(BACKSLASH);
            out.push(117);
            out.push(48);
            out.push(48);
            out.push(48 + b / 16);
            let lo = b % 16;
            if lo < 10 {
                out.push(48 + lo);
            } else {
                out.push(87 + lo);
            }
        } else {
            out.push(b);
        }
        proof {
            assert(src@.subrange(0, i + 1) =~= src@.subrange(0, i as int).push(src@[i as int]));
            lemma_esc_name_snoc(src@.subrange(0, i as int), src@[i as int]);
            assert(out@ =~= old(out)@ + esc_name(src@.subrange(0, i + 1)));
        }
        i += 1;
    }
    proof {
        assert(src@.subrange(0, src@.len() as int) =~= src@);
    }
}

/// Append the text of an address.
#[verifier::rlimit(60)]
fn render_ip_into(ip: &IpAddress, out: &mut Vec<u8>)
    ensures
        final(out)@ == old(out)@ + render_ip(*ip),
{
    match *ip {
        IpAddress::V4 { a, b, c, d } => {
            render_num(a as u64, false, out);
            out.push(DOT);
            render_num(b as u64, false, out);
            out.push(DOT);
            render_num(c as u64, false, out);
            out.push(DOT);
            render_num(d as u64, false, out);
            proof {
                assert(out@ =~= old(out)@ + render_ip(*ip));
            }
        },
        IpAddress::V6 { g0, g1, g2, g3, g4, g5, g6, g7 } => {
            render_num(g0 as u64, true, out);
            out.push(COLON);
            render_num(g1 as u64, true, out);
            out.push(COLON);
            render_num(g2 as u64, true, out);
            out.push(COLON);
            render_num(g3 as u64, true, out);
            out.push(COLON);
            render_num(g4 as u64, true, out);
            out.push(COLON);
            render_num(g5 as u64, true, out);
            out.push(COLON);
            render_num(g6 as u64, true, out);
            out.push(COLON);
            render_num(g7 as u64, true, out);
            proof {
                assert(out@ =~= old(out)@ + render_ip(*ip));
            }
        },
    }
}

/// Append one key's stats object.
fn render_stats_into(st: &PacketStats, out: &mut Vec<u8>)
    ensures
        final(out)@ == old(out)@ + render_stats(*st),
{
    out.push(LBRACE);
    out.push(Q);
    out.push(99);
    out.push(111);
    out.push(117);
    out.push(110);
    out.push(116);
    out.push(Q);
    out.push(COLON);
    proof {
        assert(out@ =~= old(out)@ + lit_count());
    }
    render_num(st.count, false, out);
    out.push(COMMA);
    out.push(Q);
    out.push(115);
    out.push(105);
    out.push(122);
    out.push(101);
    out.push(Q);
    out.push(COLON);
    render_num(st.size, false, out);
    out.push(RBRACE);
    proof {
        assert(out@ =~= old(out)@ + render_stats(*st));
    }
}

/// Append the members of a per-interface document.
fn render_ip_entries_into(entries: &Vec<IpEntry>, out: &mut Vec<u8>)
    ensures
        final(out)@ == old(out)@ + render_ip_entries(entries@),
{
    let mut k: usize = 0;
    proof {
        assert(entries@.subrange(0, 0) =~= Seq::<IpEntry>::empty());
        assert(out@ =~= old(out)@ + render_ip_entries(entries@.subrange(0, 0)));
    }
    while k < entries.len()
        invariant
            k <= entries@.len(),
            out@ == old(out)@ + render_ip_entries(entries@.subrange(0, k as int)),
        decreases entries@.len() - k,
    {
        if k > 0 {
            out.push(COMMA);
        }
        let e = entries[k];
        out.push(Q);
        render_ip_into(&e.ip, out);
        out.push(Q);
        out.push(COLON);
        render_stats_into(&e.stats, out);
        proof {
            assert(entries@.subrange(0, k + 1) =~= entries@.subrange(0, k as int).push(
                entries@[k as int],
            ));
            lemma_ip_entries_snoc(entries@.subrange(0, k as int), entries@[k as int]);
            assert(render_ip_entry(entries@[k as int]) =~= seq![Q] + render_ip(e.ip) + seq![
                Q,
                COLON,
            ] + render_stats(e.stats));
            assert(out@ =~= old(out)@ + render_ip_entries(entries@.subrange(0, k + 1)));
        }
        k += 1;
    }
    proof {
        assert(entries@.subrange(0, entries@.len() as int) =~= entries@);
    }
}

/// The snapshot document of one interface: its address-to-stats object,
/// exactly as the combined document nests it under the interface name.
pub fn render_interface_doc(iface: &InterfaceStats) -> (r: Vec<u8>)
    ensures
        r@ == render_iface_doc(iface.entries@),
{
    let mut out: Vec<u8> = Vec::new();
    out.push(LBRACE);
    render_ip_entries_into(&iface.entries, &mut out);
    out.push(RBRACE);
    proof {
        assert(out@ =~= render_iface_doc(iface.entries@));
    }
    out
}

/// The combined snapshot document of the whole table.
#[verifier::rlimit(100)]
pub fn render_snapshot(t: &CounterTable) -> (r: Vec<u8>)
    ensures
        r@ == render_table(t.ifaces@),
{
    let mut out: Vec<u8> = Vec::new();
    out.push(LBRACE);
    let mut k: usize = 0;
    proof {
        assert(t.ifaces@.subrange(0, 0) =~= Seq::<InterfaceStats>::empty());
        assert(out@ =~= seq![LBRACE] + render_tbl_entries(t.ifaces@.subrange(0, 0)));
    }
    while k < t.ifaces.len()
        invariant
            k <= t.ifaces@.len(),
            out@ == seq![LBRACE] + render_tbl_entries(t.ifaces@.subrange(0, k as int)),
        decreases t.ifaces@.len() - k,
    {
        if k > 0 {
            out.push(COMMA);
        }
        let row = &t.ifaces[k];
        out.push(Q);
        push_name_escaped(&row.name, &mut out);
        out.push(Q);
        out.push(COLON);
        out.push(LBRACE);
        render_ip_entries_into(&row.entries, &mut out);
        out.push(RBRACE);
        proof {
            assert(t.ifaces@.subrange(0, k + 1) =~= t.ifaces@.subrange(0, k as int).push(
                t.ifaces@[k as int],
            ));
            lemma_tbl_entries_snoc(t.ifaces@.subrange(0, k as int), t.ifaces@[k as int]);
            assert(render_tbl_entry(t.ifaces@[k as int]) =~= seq![Q] + esc_name(row.name@) + seq![
                Q,
                COLON,
            ] + render_iface_doc(row.entries@));
            assert(out@ =~= seq![LBRACE] + render_tbl_entries(t.ifaces@.subrange(0, k + 1)));
        }
        k += 1;
    }
    out.push(RBRACE);
    proof {
        assert(t.ifaces@.subrange(0, t.ifaces@.len() as int) =~= t.ifaces@);
        assert(out@ =~= render_table(t.ifaces@));
    }
    out
}

/// A decimal 64-bit number read at `i`.
pub open spec fn sp_u64(s: Seq<u8>, i: int) -> Option<(u64, int)> {
    let j = run_end(10, s, i);
    let v = val_of(10, s.subrange(i, j));
    if j == i || v > u64::MAX {
        None
    } else {
        Some((v as u64, j))
    }
}

/// A lowercase hexadecimal 16-bit group read at `i`.
pub open spec fn sp_hex16(s: Seq<u8>, i: int) -> Option<(u16, int)> {
    let j = run_end(16, s, i);
    let v = val_of(16, s.subrange(i, j));
    if j == i || v > 0xffff {
        None
    } else {
        Some((v as u16, j))
    }
}

/// A decimal address octet read at `i`.
pub open spec fn sp_dec_u8(s: Seq<u8>, i: int) -> Option<(u8, int)> {
    match sp_u64(s, i) {
        None => None,
        Some(v) => if v.0 <= 255 {
            Some((v.0 as u8, v.1))
        } else {
            None
        },
    }
}

/// A dot, then a decimal octet.
pub open spec fn sp_dot_u8(s: Seq<u8>, i: int) -> Option<(u8, int)> {
    if 0 <= i && i < s.len() && s[i] == DOT {
        sp_dec_u8(s, i + 1)
    } else {
        None
    }
}

/// A colon, then a hexadecimal group.
pub open spec fn sp_colon_hex16(s: Seq<u8>, i: int) -> Option<(u16, int)> {
    if 0 <= i && i < s.len() && s[i] == COLON {
        sp_hex16(s, i + 1)
    } else {
        None
    }
}

/// A dotted-decimal IPv4 address read at `i`.
pub open spec fn sp_v4(s: Seq<u8>, i: int) -> Option<(IpAddress, int)> {
    match sp_dec_u8(s, i) {
        None => None,
        Some((a, j1)) => match sp_dot_u8(s, j1) {
            None => None,
            Some((b, j2)) => match sp_dot_u8(s, j2) {
                None => None,
                Some((c, j3)) => match sp_dot_u8(s, j3) {
                    None => None,
                    Some((d, j4)) => Some((IpAddress::V4 { a, b, c, d }, j4)),
                },
            },
        },
    }
}

/// An eight-group IPv6 address read at `i`.
pub open spec fn sp_v6(s: Seq<u8>, i: int) -> Option<(IpAddress, int)> {
    match sp_hex16(s, i) {
        None => None,
        Some((g0, j0)) => match sp_colon_hex16(s, j0) {
            None => None,
            Some((g1, j1)) => match sp_colon_hex16(s, j1) {
                None => None,
                Some((g2, j2)) => match sp_colon_hex16(s, j2) {
                    None => None,
                    Some((g3, j3)) => match sp_colon_hex16(s, j3) {
                        None => None,
                        Some((g4, j4)) => match sp_colon_hex16(s, j4) {
                            None => None,
                            Some((g5, j5)) => match sp_colon_hex16(s, j5) {
                                None => None,
                                Some((g6, j6)) => match sp_colon_hex16(s, j6) {
                                    None => None,
                                    Some((g7, j7)) => Some(
                                        (IpAddress::V6 { g0, g1, g2, g3, g4, g5, g6, g7 }, j7),
                                    ),
                                },
                            },
                        },
                    },
                },
            },
        },
    }
}

/// A strict colon-separated group list: at least one group, no gap.
pub open spec fn sp_v6_glist(s: Seq<u8>, i: int, acc: Seq<u16>) -> Option<(Seq<u16>, int)>
    decreases s.len() - i,
{
    match sp_hex16(s, i) {
        None => None,
        Some((g, j)) => if j <= i || j > s.len() {
            None
        } else {
            let acc2 = acc.push(g);
            if j < s.len() && s[j] == COLON && !(j + 1 < s.len() && s[j + 1] == COLON) {
                sp_v6_glist(s, j + 1, acc2)
            } else {
                Some((acc2, j))
            }
        },
    }
}

/// The groups standing before a `::` gap, read up to just past the gap.
pub open spec fn sp_v6_before(s: Seq<u8>, i: int, acc: Seq<u16>) -> Option<(Seq<u16>, int)>
    decreases s.len() - i,
{
    match sp_hex16(s, i) {
        None => None,
        Some((g, j)) => if j <= i || j > s.len() {
            None
        } else {
            let acc2 = acc.push(g);
            if j + 1 < s.len() && s[j] == COLON && s[j + 1] == COLON {
                Some((acc2, j + 2))
            } else if j < s.len() && s[j] == COLON {
                sp_v6_before(s, j + 1, acc2)
            } else {
                None
            }
        },
    }
}

/// The eight groups that a gap form denotes: the gap stands for the zero
/// groups that complete the eight.
pub open spec fn v6_fill(before: Seq<u16>, after: Seq<u16>) -> Seq<u16> {
    before + Seq::new((8 - before.len() - after.len()) as nat, |k: int| 0u16) + after
}

pub open spec fn v6_of_groups(g: Seq<u16>) -> IpAddress {
    IpAddress::V6 { g0: g[0], g1: g[1], g2: g[2], g3: g[3], g4: g[4], g5: g[5], g6: g[6], g7: g[7] }
}

/// An IPv6 key in the compressed form other writers use: groups around
/// one `::` gap.
pub open spec fn sp_v6c(s: Seq<u8>, i: int) -> Option<(IpAddress, int)> {
    if 0 <= i && i + 1 < s.len() && s[i] == COLON && s[i + 1] == COLON {
        if i + 2 < s.len() && is_digit_b(16, s[i + 2]) {
            match sp_v6_glist(s, i + 2, Seq::empty()) {
                None => None,
                Some((after, j)) => if after.len() <= 7 {
                    Some((v6_of_groups(v6_fill(Seq::empty(), after)), j))
                } else {
                    None
                },
            }
        } else {
            Some((v6_of_groups(v6_fill(Seq::empty(), Seq::empty())), i + 2))
        }
    } else {
        match sp_v6_before(s, i, Seq::empty()) {
            None => None,
            Some((before, k)) => if k < s.len() && is_digit_b(16, s[k]) {
                match sp_v6_glist(s, k, Seq::empty()) {
                    None => None,
                    Some((after, j)) => if before.len() + after.len() <= 7 {
                        Some((v6_of_groups(v6_fill(before, after)), j))
                    } else {
                        None
                    },
                }
            } else if before.len() <= 7 {
                Some((v6_of_groups(v6_fill(before, Seq::empty())), k))
            } else {
                None
            },
        }
    }
}

/// An address key read at `i`: the first byte that is no hexadecimal digit
/// decides which address family the text can be.
pub open spec fn sp_ip(s: Seq<u8>, i: int) -> Option<(IpAddress, int)> {
    let h = run_end(16, s, i);
    if h < s.len() && s[h] == DOT {
        sp_v4(s, i)
    } else if h < s.len() && s[h] == COLON {
        match sp_v6(s, i) {
            Some(v) => Some(v),
            None => sp_v6c(s, i),
        }
    } else {
        None
    }
}

/// A name read at `i`, unescaping as it goes, until the closing quote;
/// the index returned points at that quote.
pub open spec fn sp_name(s: Seq<u8>, i: int, acc: Seq<u8>) -> Option<(Seq<u8>, int)>
    decreases s.len() - i,
{
    if i < 0 || i >= s.len() {
        None
    } else if s[i] == Q {
        Some((acc, i))
    } else if s[i] == BACKSLASH {
        if i + 1 >= s.len() {
            None
        } else {
            let e = s[i + 1];
            if e == Q {
                sp_name(s, i + 2, acc.push(Q))
            } else if e == BACKSLASH {
                sp_name(s, i + 2, acc.push(BACKSLASH))
            } else if e == 47 {
                sp_name(s, i + 2, acc.push(47))
            } else if e == 98 {
                sp_name(s, i + 2, acc.push(8))
            } else if e == 116 {
                sp_name(s, i + 2, acc.push(9))
            } else if e == 110 {
                sp_name(s, i + 2, acc.push(10))
            } else if e == 102 {
                sp_name(s, i + 2, acc.push(12))
            } else if e == 114 {
                sp_name(s, i + 2, acc.push(13))
            } else if e == 117 {
                if i + 6 <= s.len() && is_digit_b(16, s[i + 2]) && is_digit_b(16, s[i + 3])
                    && is_digit_b(16, s[i + 4]) && is_digit_b(16, s[i + 5]) {
                    let v = digit_val(s[i + 2]) * 4096 + digit_val(s[i + 3]) * 256 + digit_val(
                        s[i + 4],
                    ) * 16 + digit_val(s[i + 5]);
                    if v <= 255 {
                        sp_name(s, i + 6, acc.push(v as u8))
                    } else {
                        None
                    }
                } else {
                    None
                }
            } else {
                None
            }
        }
    } else {
        sp_name(s, i + 1, acc.push(s[i]))
    }
}

/// Whether the bytes of `lit` stand at `i`.
pub open spec fn is_lit_at(s: Seq<u8>, i: int, lit: Seq<u8>) -> bool {
    0 <= i && i + lit.len() <= s.len() && s.subrange(i, i + lit.len()) == lit
}

/// A stats object read at `i`, with insignificant bytes allowed between
/// its tokens.
pub open spec fn sp_stats(s: Seq<u8>, i: int) -> Option<(PacketStats, int)> {
    if 0 <= i && i < s.len() && s[i] == LBRACE {
        let i1 = ws_end(s, i + 1);
        if is_lit_at(s, i1, lit_countq()) {
            let i2 = ws_end(s, i1 + 7);
            if i2 < s.len() && s[i2] == COLON {
                let i3 = ws_end(s, i2 + 1);
                match sp_u64(s, i3) {
                    None => None,
                    Some((c, j)) => {
                        let j1 = ws_end(s, j);
                        if j1 < s.len() && s[j1] == COMMA {
                            let i4 = ws_end(s, j1 + 1);
                            if is_lit_at(s, i4, lit_sizeq()) {
                                let i5 = ws_end(s, i4 + 6);
                                if i5 < s.len() && s[i5] == COLON {
                                    let i6 = ws_end(s, i5 + 1);
                                    match sp_u64(s, i6) {
                                        None => None,
                                        Some((z, j2)) => {
                                            let j3 = ws_end(s, j2);
                                            if j3 < s.len() && s[j3] == RBRACE {
                                                Some((PacketStats { count: c, size: z }, j3 + 1))
                                            } else {
                                                None
                                            }
                                        },
                                    }
                                } else {
                                    None
                                }
                            } else {
                                None
                            }
                        } else {
                            None
                        }
                    },
                }
            } else {
                None
            }
        } else {
            None
        }
    } else {
        None
    }
}

/// One member of a per-interface object read at `i`: quoted address key,
/// colon, stats object.
pub open spec fn sp_ip_entry(s: Seq<u8>, i: int) -> Option<((IpAddress, PacketStats), int)> {
    if 0 <= i && i < s.len() && s[i] == Q {
        match sp_ip(s, i + 1) {
            None => None,
            Some((ip, j)) => if j < s.len() && s[j] == Q {
                let jc = ws_end(s, j + 1);
                if jc < s.len() && s[jc] == COLON {
                    let jv = ws_end(s, jc + 1);
                    match sp_stats(s, jv) {
                        None => None,
                        Some((st, j2)) => Some(((ip, st), j2)),
                    }
                } else {
                    None
                }
            } else {
                None
            },
        }
    } else {
        None
    }
}

/// The members of a per-interface object from `i` up to and past the
/// closing brace, folded into `m` in reading order.
pub open spec fn sp_ip_entries(s: Seq<u8>, i: int, m: Map<IpAddress, PacketStats>) -> Option<
    (Map<IpAddress, PacketStats>, int),
>
    decreases s.len() - i,
{
    let i0 = ws_end(s, i);
    match sp_ip_entry(s, i0) {
        None => None,
        Some(((ip, st), j)) => if j <= i || j >= s.len() {
            None
        } else {
            let m2 = m.insert(ip, st);
            let jwc = ws_end(s, j);
            let jw = if jwc < j { j } else { jwc };
            if jw < s.len() && s[jw] == COMMA {
                sp_ip_entries(s, jw + 1, m2)
            } else if jw < s.len() && s[jw] == RBRACE {
                Some((m2, jw + 1))
            } else {
                None
            }
        },
    }
}

/// A whole per-interface object read at `i`, folded into `m0`.
pub open spec fn sp_iface_doc(s: Seq<u8>, i: int, m0: Map<IpAddress, PacketStats>) -> Option<
    (Map<IpAddress, PacketStats>, int),
> {
    if 0 <= i && i < s.len() && s[i] == LBRACE {
        let i1 = ws_end(s, i + 1);
        if i1 < s.len() && s[i1] == RBRACE {
            Some((m0, i1 + 1))
        } else {
            sp_ip_entries(s, i + 1, m0)
        }
    } else {
        None
    }
}

/// The members of the combined object from `i` up to and past the closing
/// brace, folded into `m` in reading order.
pub open spec fn sp_tbl_entries(
    s: Seq<u8>,
    i: int,
    m: Map<Seq<u8>, Map<IpAddress, PacketStats>>,
) -> Option<(Map<Seq<u8>, Map<IpAddress, PacketStats>>, int)>
    decreases s.len() - i,
{
    let i0 = ws_end(s, i);
    if 0 <= i0 && i0 < s.len() && s[i0] == Q {
        match sp_name(s, i0 + 1, Seq::empty()) {
            None => None,
            Some((name, j)) => {
                let jc = ws_end(s, j + 1);
                if jc < s.len() && s[jc] == COLON {
                    let jv = ws_end(s, jc + 1);
                    match sp_iface_doc(s, jv, Map::empty()) {
                        None => None,
                        Some((im, j2)) => if j2 <= i || j2 >= s.len() {
                            None
                        } else {
                            let m2 = m.insert(name, im);
                            let jwc = ws_end(s, j2);
                            let jw = if jwc < j2 { j2 } else { jwc };
                            if jw < s.len() && s[jw] == COMMA {
                                sp_tbl_entries(s, jw + 1, m2)
                            } else if jw < s.len() && s[jw] == RBRACE {
                                Some((m2, jw + 1))
                            } else {
                                None
                            }
                        },
                    }
                } else {
                    None
                }
            },
        }
    } else {
        None
    }
}

/// The mapping a whole combined snapshot document denotes, if the document
/// is well formed.
pub open spec fn sp_snapshot(s: Seq<u8>) -> Option<Map<Seq<u8>, Map<IpAddress, PacketStats>>> {
    let w0 = ws_end(s, 0);
    if 0 <= w0 && w0 < s.len() && s[w0] == LBRACE {
        let w1 = ws_end(s, w0 + 1);
        if w1 < s.len() && s[w1] == RBRACE {
            if ws_end(s, w1 + 1) == s.len() {
                Some(Map::empty())
            } else {
                None
            }
        } else {
            match sp_tbl_entries(s, w0 + 1, Map::empty()) {
                None => None,
                Some((m, j)) => if 0 <= j <= s.len() && ws_end(s, j) == s.len() {
                    Some(m)
                } else {
                    None
                },
            }
        }
    } else {
        None
    }
}

/// Folding the members of a per-interface object into a mapping, in
/// reading order.
pub open spec fn insert_all_ip(m0: Map<IpAddress, PacketStats>, s: Seq<IpEntry>) -> Map<
    IpAddress,
    PacketStats,
>
    decreases s.len(),
{
    if s.len() == 0 {
        m0
    } else {
        insert_all_ip(m0.insert(s[0].ip, s[0].stats), s.drop_first())
    }
}

/// Folding the members of a combined object into a mapping, in reading
/// order.
pub open spec fn insert_all_tbl(
    m0: Map<Seq<u8>, Map<IpAddress, PacketStats>>,
    s: Seq<InterfaceStats>,
) -> Map<Seq<u8>, Map<IpAddress, PacketStats>>
    decreases s.len(),
{
    if s.len() == 0 {
        m0
    } else {
        insert_all_tbl(m0.insert(s[0].name@, ip_map(s[0].entries@)), s.drop_first())
    }
}

proof fn lemma_sub_eq(s: Seq<u8>, i: int, r: Seq<u8>, p: int, q: int)
    requires
        0 <= i,
        i + r.len() <= s.len(),
        s.subrange(i, i + r.len()) == r,
        0 <= p <= q <= r.len(),
    ensures
        s.subrange(i + p, i + q) == r.subrange(p, q),
{
    assert(s.subrange(i + p, i + q) =~= r.subrange(p, q)) by {
        assert forall|k: int| 0 <= k < q - p implies s.subrange(i + p, i + q)[k] == r.subrange(
            p,
            q,
        )[k] by {
            assert(s.subrange(i, i + r.len())[p + k] == r[p + k]);
        }
    }
}

proof fn lemma_sub_byte(s: Seq<u8>, i: int, r: Seq<u8>, p: int)
    requires
        0 <= i,
        i + r.len() <= s.len(),
        s.subrange(i, i + r.len()) == r,
        0 <= p < r.len(),
    ensures
        s[i + p] == r[p],
{
    assert(s.subrange(i, i + r.len())[p] == r[p]);
}

proof fn lemma_sp_u64_at(s: Seq<u8>, i: int, n: u64)
    requires
        0 <= i,
        i + dec(n).len() < s.len(),
        s.subrange(i, i + dec(n).len()) == dec(n),
        !is_digit_b(10, s[i + dec(n).len()]),
    ensures
        sp_u64(s, i) == Some((n, i + dec(n).len())),
{
    lemma_digits_of(10, n as int);
    let j = i + dec(n).len();
    assert forall|k: int| i <= k < j implies is_digit_b(10, #[trigger] s[k]) by {
        assert(s.subrange(i, j)[k - i] == dec(n)[k - i]);
    }
    lemma_run_end_digits(10, s, i, j);
    assert(val_of(10, s.subrange(i, j)) == n as int);
}

proof fn lemma_sp_hex16_at(s: Seq<u8>, i: int, n: u16)
    requires
        0 <= i,
        i + hexd(n).len() < s.len(),
        s.subrange(i, i + hexd(n).len()) == hexd(n),
        !is_digit_b(16, s[i + hexd(n).len()]),
    ensures
        sp_hex16(s, i) == Some((n, i + hexd(n).len())),
{
    lemma_digits_of(16, n as int);
    let j = i + hexd(n).len();
    assert forall|k: int| i <= k < j implies is_digit_b(16, #[trigger] s[k]) by {
        assert(s.subrange(i, j)[k - i] == hexd(n)[k - i]);
    }
    lemma_run_end_digits(16, s, i, j);
    assert(val_of(16, s.subrange(i, j)) == n as int);
}

proof fn lemma_sp_dec_u8_at(s: Seq<u8>, i: int, n: u8)
    requires
        0 <= i,
        i + dec(n as u64).len() < s.len(),
        s.subrange(i, i + dec(n as u64).len()) == dec(n as u64),
        !is_digit_b(10, s[i + dec(n as u64).len()]),
    ensures
        sp_dec_u8(s, i) == Some((n, i + dec(n as u64).len())),
{
    lemma_sp_u64_at(s, i, n as u64);
}

/// A decimal digit byte is also a hexadecimal digit byte, and the
/// separators and quote are neither.
proof fn lemma_digit_classes()
    ensures
        forall|b: u8| is_digit_b(10, b) ==> is_digit_b(16, b),
        !is_digit_b(16, DOT) && !is_digit_b(10, DOT),
        !is_digit_b(16, COLON) && !is_digit_b(10, COLON),
        !is_digit_b(16, Q) && !is_digit_b(10, Q),
{
}

#[verifier::rlimit(100)]
proof fn lemma_sp_v4_at(s: Seq<u8>, i: int, a: u8, b: u8, c: u8, d: u8)
    requires
        0 <= i,
        i + render_ip(IpAddress::V4 { a, b, c, d }).len() < s.len(),
        s.subrange(i, i + render_ip(IpAddress::V4 { a, b, c, d }).len()) == render_ip(
            IpAddress::V4 { a, b, c, d },
        ),
        s[i + render_ip(IpAddress::V4 { a, b, c, d }).len()] == Q,
    ensures
        sp_v4(s, i) == Some((IpAddress::V4 { a, b, c, d }, i + render_ip(
            IpAddress::V4 { a, b, c, d },
        ).len())),
        run_end(16, s, i) < s.len() && s[run_end(16, s, i)] == DOT,
{
    let r = render_ip(IpAddress::V4 { a, b, c, d });
    let ra = dec(a as u64);
    let rb = dec(b as u64);
    let rc = dec(c as u64);
    let rd = dec(d as u64);
    let la = ra.len() as int;
    let lb = rb.len() as int;
    let lc = rc.len() as int;
    let ld = rd.len() as int;
    let ob = la + 1;
    let oc = ob + lb + 1;
    let od = oc + lc + 1;
    let ll = od + ld;
    lemma_digit_classes();
    assert(r.len() == ll);
    assert(r.subrange(0, la) =~= ra);
    assert(r[la] == DOT);
    assert(r.subrange(ob, ob + lb) =~= rb);
    assert(r[ob + lb] == DOT);
    assert(r.subrange(oc, oc + lc) =~= rc);
    assert(r[oc + lc] == DOT);
    assert(r.subrange(od, od + ld) =~= rd);
    lemma_sub_eq(s, i, r, 0, la);
    lemma_sub_byte(s, i, r, la);
    lemma_sub_eq(s, i, r, ob, ob + lb);
    lemma_sub_byte(s, i, r, ob + lb);
    lemma_sub_eq(s, i, r, oc, oc + lc);
    lemma_sub_byte(s, i, r, oc + lc);
    lemma_sub_eq(s, i, r, od, od + ld);
    lemma_sp_dec_u8_at(s, i, a);
    lemma_sp_dec_u8_at(s, i + ob, b);
    lemma_sp_dec_u8_at(s, i + oc, c);
    lemma_sp_dec_u8_at(s, i + od, d);
    lemma_digits_of(10, a as int);
    assert forall|k: int| i <= k < i + la implies is_digit_b(16, #[trigger] s[k]) by {
        assert(s.subrange(i, i + la)[k - i] == ra[k - i]);
        assert(is_digit_b(10, ra[k - i]));
    }
    lemma_run_end_digits(16, s, i, i + la);
    assert(s[i + la] == DOT);
    assert(sp_v4(s, i) == Some((IpAddress::V4 { a, b, c, d }, i + ll)));
}

#[verifier::rlimit(100)]
proof fn lemma_sp_v6_at(
    s: Seq<u8>,
    i: int,
    g0: u16,
    g1: u16,
    g2: u16,
    g3: u16,
    g4: u16,
    g5: u16,
    g6: u16,
    g7: u16,
)
    requires
        0 <= i,
        i + render_ip(IpAddress::V6 { g0, g1, g2, g3, g4, g5, g6, g7 }).len() < s.len(),
        s.subrange(i, i + render_ip(IpAddress::V6 { g0, g1, g2, g3, g4, g5, g6, g7 }).len())
            == render_ip(IpAddress::V6 { g0, g1, g2, g3, g4, g5, g6, g7 }),
        s[i + render_ip(IpAddress::V6 { g0, g1, g2, g3, g4, g5, g6, g7 }).len()] == Q,
    ensures
        sp_v6(s, i) == Some((IpAddress::V6 { g0, g1, g2, g3, g4, g5, g6, g7 }, i + render_ip(
            IpAddress::V6 { g0, g1, g2, g3, g4, g5, g6, g7 },
        ).len())),
        run_end(16, s, i) < s.len() && s[run_end(16, s, i)] == COLON,
{
    let r = render_ip(IpAddress::V6 { g0, g1, g2, g3, g4, g5, g6, g7 });
    let r0 = hexd(g0);
    let r1 = hexd(g1);
    let r2 = hexd(g2);
    let r3 = hexd(g3);
    let r4 = hexd(g4);
    let r5 = hexd(g5);
    let r6 = hexd(g6);
    let r7 = hexd(g7);
    let o0 = 0int;
    let o1 = o0 + r0.len() + 1;
    let o2 = o1 + r1.len() + 1;
    let o3 = o2 + r2.len() + 1;
    let o4 = o3 + r3.len() + 1;
    let o5 = o4 + r4.len() + 1;
    let o6 = o5 + r5.len() + 1;
    let o7 = o6 + r6.len() + 1;
    let ll = o7 + r7.len();
    lemma_digit_classes();
    assert(r.len() == ll);
    assert(r.subrange(o0, o0 + r0.len()) =~= r0);
    assert(r[o0 + r0.len()] == COLON);
    assert(r.subrange(o1, o1 + r1.len()) =~= r1);
    assert(r[o1 + r1.len()] == COLON);
    assert(r.subrange(o2, o2 + r2.len()) =~= r2);
    assert(r[o2 + r2.len()] == COLON);
    assert(r.subrange(o3, o3 + r3.len()) =~= r3);
    assert(r[o3 + r3.len()] == COLON);
    assert(r.subrange(o4, o4 + r4.len()) =~= r4);
    assert(r[o4 + r4.len()] == COLON);
    assert(r.subrange(o5, o5 + r5.len()) =~= r5);
    assert(r[o5 + r5.len()] == COLON);
    assert(r.subrange(o6, o6 + r6.len()) =~= r6);
    assert(r[o6 + r6.len()] == COLON);
    assert(r.subrange(o7, o7 + r7.len()) =~= r7);
    lemma_sub_eq(s, i, r, o0, o0 + r0.len());
    lemma_sub_byte(s, i, r, o0 + r0.len());
    lemma_sub_eq(s, i, r, o1, o1 + r1.len());
    lemma_sub_byte(s, i, r, o1 + r1.len());
    lemma_sub_eq(s, i, r, o2, o2 + r2.len());
    lemma_sub_byte(s, i, r, o2 + r2.len());
    lemma_sub_eq(s, i, r, o3, o3 + r3.len());
    lemma_sub_byte(s, i, r, o3 + r3.len());
    lemma_sub_eq(s, i, r, o4, o4 + r4.len());
    lemma_sub_byte(s, i, r, o4 + r4.len());
    lemma_sub_eq(s, i, r, o5, o5 + r5.len());
    lemma_sub_byte(s, i, r, o5 + r5.len());
    lemma_sub_eq(s, i, r, o6, o6 + r6.len());
    lemma_sub_byte(s, i, r, o6 + r6.len());
    lemma_sub_eq(s, i, r, o7, o7 + r7.len());
    lemma_sp_hex16_at(s, i + o0, g0);
    lemma_sp_hex16_at(s, i + o1, g1);
    lemma_sp_hex16_at(s, i + o2, g2);
    lemma_sp_hex16_at(s, i + o3, g3);
    lemma_sp_hex16_at(s, i + o4, g4);
    lemma_sp_hex16_at(s, i + o5, g5);
    lemma_sp_hex16_at(s, i + o6, g6);
    lemma_sp_hex16_at(s, i + o7, g7);
    lemma_digits_of(16, g0 as int);
    assert forall|k: int| i <= k < i + r0.len() implies is_digit_b(16, #[trigger] s[k]) by {
        assert(s.subrange(i, i + r0.len())[k - i] == r0[k - i]);
    }
    lemma_run_end_digits(16, s, i, i + r0.len());
    assert(s[i + r0.len()] == COLON);
    assert(sp_v6(s, i) == Some((IpAddress::V6 { g0, g1, g2, g3, g4, g5, g6, g7 }, i + ll)));
}

proof fn lemma_sp_ip_at(s: Seq<u8>, i: int, ip: IpAddress)
    requires
        0 <= i,
        i + render_ip(ip).len() < s.len(),
        s.subrange(i, i + render_ip(ip).len()) == render_ip(ip),
        s[i + render_ip(ip).len()] == Q,
    ensures
        sp_ip(s, i) == Some((ip, i + render_ip(ip).len())),
{
    match ip {
        IpAddress::V4 { a, b, c, d } => {
            lemma_sp_v4_at(s, i, a, b, c, d);
            assert(sp_ip(s, i) == sp_v4(s, i));
        },
        IpAddress::V6 { g0, g1, g2, g3, g4, g5, g6, g7 } => {
            lemma_sp_v6_at(s, i, g0, g1, g2, g3, g4, g5, g6, g7);
            assert(sp_ip(s, i) == Some((ip, i + render_ip(ip).len())));
        },
    }
}

#[verifier::rlimit(100)]
proof fn lemma_sp_stats_at(s: Seq<u8>, i: int, st: PacketStats)
    requires
        0 <= i,
        i + render_stats(st).len() <= s.len(),
        s.subrange(i, i + render_stats(st).len()) == render_stats(st),
    ensures
        sp_stats(s, i) == Some((st, i + render_stats(st).len())),
{
    let r = render_stats(st);
    let rc = dec(st.count);
    let rz = dec(st.size);
    let lc = rc.len() as int;
    let lz = rz.len() as int;
    let oc = 9int;
    let os = oc + lc + 8;
    let ll = os + lz + 1;
    lemma_digit_classes();
    lemma_digits_of(10, st.count as int);
    lemma_digits_of(10, st.size as int);
    assert(r.len() == ll);
    assert(r[0] == LBRACE);
    assert(r.subrange(1, 8) =~= lit_countq());
    assert(r[8] == COLON);
    assert(r.subrange(oc, oc + lc) =~= rc);
    assert(r[oc + lc] == COMMA);
    assert(r.subrange(oc + lc + 1, oc + lc + 7) =~= lit_sizeq());
    assert(r[oc + lc + 7] == COLON);
    assert(r.subrange(os, os + lz) =~= rz);
    assert(r[ll - 1] == RBRACE);
    lemma_sub_byte(s, i, r, 0);
    lemma_sub_byte(s, i, r, 1);
    lemma_sub_eq(s, i, r, 1, 8);
    lemma_sub_byte(s, i, r, 8);
    lemma_sub_byte(s, i, r, 9);
    lemma_sub_eq(s, i, r, oc, oc + lc);
    lemma_sub_byte(s, i, r, oc + lc);
    lemma_sub_byte(s, i, r, oc + lc + 1);
    lemma_sub_eq(s, i, r, oc + lc + 1, oc + lc + 7);
    lemma_sub_byte(s, i, r, oc + lc + 7);
    lemma_sub_byte(s, i, r, os);
    lemma_sub_eq(s, i, r, os, os + lz);
    lemma_sub_byte(s, i, r, ll - 1);
    // no insignificant bytes stand between the tokens of a rendered object
    assert(r[1] == Q);
    assert(ws_end(s, i + 1) == i + 1);
    assert(is_lit_at(s, i + 1, lit_countq()));
    assert(ws_end(s, i + 8) == i + 8);
    assert(is_digit_b(10, rc[0]) && r[9] == rc[0]);
    assert(!is_ws(s[i + 9]));
    assert(ws_end(s, i + 9) == i + 9);
    assert(!is_digit_b(10, COMMA));
    lemma_sp_u64_at(s, i + oc, st.count);
    assert(ws_end(s, i + oc + lc) == i + oc + lc);
    assert(r[oc + lc + 1] == Q);
    assert(ws_end(s, i + oc + lc + 1) == i + oc + lc + 1);
    assert(is_lit_at(s, i + oc + lc + 1, lit_sizeq()));
    assert(ws_end(s, i + oc + lc + 7) == i + oc + lc + 7);
    assert(is_digit_b(10, rz[0]) && r[os] == rz[0]);
    assert(!is_ws(s[i + os]));
    assert(ws_end(s, i + os) == i + os);
    assert(s[i + os + lz] == RBRACE);
    assert(!is_digit_b(10, RBRACE));
    lemma_sp_u64_at(s, i + os, st.size);
    assert(ws_end(s, i + os + lz) == i + os + lz);
    assert(sp_stats(s, i) == Some((st, i + ll)));
}

#[verifier::rlimit(100)]
proof fn lemma_sp_ip_entry_at(s: Seq<u8>, i: int, e: IpEntry)
    requires
        0 <= i,
        i + render_ip_entry(e).len() <= s.len(),
        s.subrange(i, i + render_ip_entry(e).len()) == render_ip_entry(e),
    ensures
        sp_ip_entry(s, i) == Some(((e.ip, e.stats), i + render_ip_entry(e).len())),
{
    let r = render_ip_entry(e);
    let rip = render_ip(e.ip);
    let rst = render_stats(e.stats);
    let lip = rip.len() as int;
    let ost = 1 + lip + 2;
    let ll = ost + rst.len();
    assert(r.len() == ll);
    assert(r[0] == Q);
    assert(r.subrange(1, 1 + lip) =~= rip);
    assert(r[1 + lip] == Q);
    assert(r[1 + lip + 1] == COLON);
    assert(r.subrange(ost, ll) =~= rst);
    assert(r[ost] == LBRACE) by {
        assert(rst[0] == LBRACE);
    }
    lemma_sub_byte(s, i, r, 0);
    lemma_sub_eq(s, i, r, 1, 1 + lip);
    lemma_sub_byte(s, i, r, 1 + lip);
    lemma_sub_byte(s, i, r, 1 + lip + 1);
    lemma_sub_byte(s, i, r, ost);
    lemma_sub_eq(s, i, r, ost, ll);
    lemma_sp_ip_at(s, i + 1, e.ip);
    lemma_sp_stats_at(s, i + ost, e.stats);
    assert(ws_end(s, i + 1 + lip + 1) == i + 1 + lip + 1);
    assert(ws_end(s, i + ost) == i + ost);
    assert(sp_ip_entry(s, i) == Some(((e.ip, e.stats), i + ll)));
}

proof fn lemma_sp_ip_entries_at(
    s: Seq<u8>,
    i: int,
    entries: Seq<IpEntry>,
    m0: Map<IpAddress, PacketStats>,
)
    requires
        0 <= i,
        entries.len() >= 1,
        i + render_ip_entries(entries).len() < s.len(),
        s.subrange(i, i + render_ip_entries(entries).len()) == render_ip_entries(entries),
        s[i + render_ip_entries(entries).len()] == RBRACE,
    ensures
        sp_ip_entries(s, i, m0) == Some(
            (insert_all_ip(m0, entries), i + render_ip_entries(entries).len() + 1),
        ),
    decreases entries.len(),
{
    let r = render_ip_entries(entries);
    let e0 = entries[0];
    let r0 = render_ip_entry(e0);
    let l0 = r0.len() as int;
    assert(r0[0] == Q);
    if entries.len() == 1 {
        assert(r == r0);
        lemma_sub_byte(s, i, r, 0);
        assert(ws_end(s, i) == i);
        lemma_sp_ip_entry_at(s, i, e0);
        assert(s[i + l0] == RBRACE);
        assert(ws_end(s, i + l0) == i + l0);
        assert(insert_all_ip(m0, entries) == insert_all_ip(m0.insert(e0.ip, e0.stats), entries.drop_first()));
        assert(entries.drop_first().len() == 0);
        assert(sp_ip_entries(s, i, m0) == Some((m0.insert(e0.ip, e0.stats), i + l0 + 1)));
    } else {
        let tail = entries.drop_first();
        let rt = render_ip_entries(tail);
        assert(r == r0 + seq![COMMA] + rt);
        assert(r.subrange(0, l0) =~= r0);
        assert(r[l0] == COMMA);
        assert(r.subrange(l0 + 1, r.len() as int) =~= rt);
        lemma_sub_eq(s, i, r, 0, l0);
        lemma_sub_byte(s, i, r, l0);
        lemma_sub_eq(s, i, r, l0 + 1, r.len() as int);
        lemma_sub_byte(s, i, r, 0);
        assert(ws_end(s, i) == i);
        lemma_sp_ip_entry_at(s, i, e0);
        lemma_sp_ip_entries_at(s, i + l0 + 1, tail, m0.insert(e0.ip, e0.stats));
        assert(s[i + l0] == COMMA);
        assert(ws_end(s, i + l0) == i + l0);
        assert(sp_ip_entries(s, i, m0) == sp_ip_entries(s, i + l0 + 1, m0.insert(e0.ip, e0.stats)));
    }
}

proof fn lemma_sp_iface_doc_at(
    s: Seq<u8>,
    i: int,
    entries: Seq<IpEntry>,
    m0: Map<IpAddress, PacketStats>,
)
    requires
        0 <= i,
        i + render_iface_doc(entries).len() <= s.len(),
        s.subrange(i, i + render_iface_doc(entries).len()) == render_iface_doc(entries),
    ensures
        sp_iface_doc(s, i, m0) == Some(
            (insert_all_ip(m0, entries), i + render_iface_doc(entries).len()),
        ),
{
    let r = render_iface_doc(entries);
    let re = render_ip_entries(entries);
    let ll = r.len() as int;
    assert(r[0] == LBRACE);
    assert(r[ll - 1] == RBRACE);
    lemma_sub_byte(s, i, r, 0);
    lemma_sub_byte(s, i, r, ll - 1);
    if entries.len() == 0 {
        assert(re.len() == 0);
        assert(ll == 2);
        assert(r[1] == RBRACE);
        lemma_sub_byte(s, i, r, 1);
        assert(ws_end(s, i + 1) == i + 1);
        assert(insert_all_ip(m0, entries) == m0);
    } else {
        assert(r.subrange(1, 1 + re.len() as int) =~= re);
        lemma_sub_eq(s, i, r, 1, 1 + re.len() as int);
        assert(s[i + 1 + re.len() as int] == RBRACE);
        lemma_sp_ip_entries_at(s, i + 1, entries, m0);
        assert(re.len() >= 1) by {
            assert(render_ip_entry(entries[0]).len() >= 1);
        }
        assert(s[i + 1] == Q) by {
            lemma_sub_byte(s, i, r, 1);
            assert(r[1] == re[0]);
            assert(re[0] == Q) by {
                assert(render_ip_entry(entries[0])[0] == Q);
            }
        }
        assert(ws_end(s, i + 1) == i + 1);
    }
}

#[verifier::rlimit(100)]
proof fn lemma_sp_name_at(s: Seq<u8>, i: int, name: Seq<u8>, acc: Seq<u8>)
    requires
        0 <= i,
        i + esc_name(name).len() < s.len(),
        s.subrange(i, i + esc_name(name).len()) == esc_name(name),
        s[i + esc_name(name).len()] == Q,
    ensures
        sp_name(s, i, acc) == Some((acc + name, i + esc_name(name).len())),
    decreases name.len(),
{
    if name.len() == 0 {
        assert(esc_name(name).len() == 0);
        assert(acc + name =~= acc);
    } else {
        let b = name[0];
        let eb = esc_byte(b);
        let rest = name.drop_first();
        let en = esc_name(name);
        assert(en == eb + esc_name(rest));
        assert(en.subrange(0, eb.len() as int) =~= eb);
        assert(en.subrange(eb.len() as int, en.len() as int) =~= esc_name(rest));
        lemma_sub_eq(s, i, en, 0, eb.len() as int);
        lemma_sub_eq(s, i, en, eb.len() as int, en.len() as int);
        if b == Q || b == BACKSLASH {
            lemma_sub_byte(s, i, en, 0);
            lemma_sub_byte(s, i, en, 1);
            assert(s[i] == BACKSLASH && s[i + 1] == b);
        } else if b < 32 {
            lemma_sub_byte(s, i, en, 0);
            lemma_sub_byte(s, i, en, 1);
            lemma_sub_byte(s, i, en, 2);
            lemma_sub_byte(s, i, en, 3);
            lemma_sub_byte(s, i, en, 4);
            lemma_sub_byte(s, i, en, 5);
            assert(s[i] == BACKSLASH && s[i + 1] == 117);
            assert(s[i + 2] == 48 && s[i + 3] == 48);
            assert(s[i + 4] == digit_byte((b as int) / 16));
            assert(s[i + 5] == digit_byte((b as int) % 16));
            lemma_fundamental_div_mod(b as int, 16);
            assert(0 <= (b as int) % 16 < 16);
            assert(0 <= (b as int) / 16 < 2);
            assert(is_digit_b(16, 48u8) && digit_val(48u8) == 0);
            assert(is_digit_b(16, s[i + 4]) && digit_val(s[i + 4]) == (b as int) / 16);
            assert(is_digit_b(16, s[i + 5]) && digit_val(s[i + 5]) == (b as int) % 16);
            assert(digit_val(s[i + 2]) * 4096 + digit_val(s[i + 3]) * 256 + digit_val(s[i + 4])
                * 16 + digit_val(s[i + 5]) == b as int);
        } else {
            lemma_sub_byte(s, i, en, 0);
            assert(s[i] == b);
        }
        lemma_sp_name_at(s, i + eb.len(), rest, acc.push(b));
        assert(name =~= seq![b] + rest);
        assert(acc.push(b) + rest =~= acc + name);
    }
}

#[verifier::rlimit(100)]
proof fn lemma_sp_tbl_entries_at(
    s: Seq<u8>,
    i: int,
    rows: Seq<InterfaceStats>,
    m0: Map<Seq<u8>, Map<IpAddress, PacketStats>>,
)
    requires
        0 <= i,
        rows.len() >= 1,
        i + render_tbl_entries(rows).len() < s.len(),
        s.subrange(i, i + render_tbl_entries(rows).len()) == render_tbl_entries(rows),
        s[i + render_tbl_entries(rows).len()] == RBRACE,
    ensures
        sp_tbl_entries(s, i, m0) == Some(
            (insert_all_tbl(m0, rows), i + render_tbl_entries(rows).len() + 1),
        ),
    decreases rows.len(),
{
    let r = render_tbl_entries(rows);
    let row = rows[0];
    let r0 = render_tbl_entry(row);
    let l0 = r0.len() as int;
    let name = row.name@;
    let ln = esc_name(name).len() as int;
    let rdoc = render_iface_doc(row.entries@);
    // the shape of the first member
    assert(r0[0] == Q);
    assert(r0.subrange(1, 1 + ln) =~= esc_name(name));
    assert(r0[1 + ln] == Q);
    assert(r0[1 + ln + 1] == COLON);
    assert(r0.subrange(1 + ln + 2, l0) =~= rdoc);
    assert(r0[1 + ln + 2] == LBRACE) by {
        assert(rdoc[0] == LBRACE);
    }
    if rows.len() == 1 {
        assert(r == r0);
        lemma_sub_byte(s, i, r, 0);
        lemma_sub_eq(s, i, r, 1, 1 + ln);
        lemma_sub_byte(s, i, r, 1 + ln);
        lemma_sub_byte(s, i, r, 1 + ln + 1);
        lemma_sub_byte(s, i, r, 1 + ln + 2);
        lemma_sub_eq(s, i, r, 1 + ln + 2, l0);
        assert(ws_end(s, i) == i);
        lemma_sp_name_at(s, i + 1, name, Seq::empty());
        assert(Seq::empty() + name =~= name);
        assert(ws_end(s, i + 1 + ln + 1) == i + 1 + ln + 1);
        assert(ws_end(s, i + 1 + ln + 2) == i + 1 + ln + 2);
        lemma_sp_iface_doc_at(s, i + 1 + ln + 2, row.entries@, Map::empty());
        assert(s[i + l0] == RBRACE);
        assert(ws_end(s, i + l0) == i + l0);
        assert(insert_all_tbl(m0, rows) == insert_all_tbl(
            m0.insert(name, ip_map(row.entries@)),
            rows.drop_first(),
        ));
        lemma_insert_all_ip_map(row.entries@);
        assert(sp_tbl_entries(s, i, m0) == Some((insert_all_tbl(m0, rows), i + l0 + 1)));
    } else {
        let tail = rows.drop_first();
        let rt = render_tbl_entries(tail);
        assert(r == r0 + seq![COMMA] + rt);
        assert(r.subrange(0, l0) =~= r0);
        assert(r[l0] == COMMA);
        assert(r.subrange(l0 + 1, r.len() as int) =~= rt);
        lemma_sub_eq(s, i, r, 0, l0);
        lemma_sub_byte(s, i, r, l0);
        lemma_sub_eq(s, i, r, l0 + 1, r.len() as int);
        // member parts, through the prefix equality established above
        lemma_sub_byte(s, i, r0, 0);
        lemma_sub_eq(s, i, r0, 1, 1 + ln);
        lemma_sub_byte(s, i, r0, 1 + ln);
        lemma_sub_byte(s, i, r0, 1 + ln + 1);
        lemma_sub_byte(s, i, r0, 1 + ln + 2);
        lemma_sub_eq(s, i, r0, 1 + ln + 2, l0);
        assert(ws_end(s, i) == i);
        lemma_sp_name_at(s, i + 1, name, Seq::empty());
        assert(Seq::empty() + name =~= name);
        assert(ws_end(s, i + 1 + ln + 1) == i + 1 + ln + 1);
        assert(ws_end(s, i + 1 + ln + 2) == i + 1 + ln + 2);
        lemma_sp_iface_doc_at(s, i + 1 + ln + 2, row.entries@, Map::empty());
        lemma_sp_tbl_entries_at(s, i + l0 + 1, tail, m0.insert(name, ip_map(row.entries@)));
        lemma_insert_all_ip_map(row.entries@);
        assert(s[i + l0] == COMMA);
        assert(ws_end(s, i + l0) == i + l0);
        assert(sp_tbl_entries(s, i, m0) == sp_tbl_entries(
            s,
            i + l0 + 1,
            m0.insert(name, ip_map(row.entries@)),
        ));
    }
}

proof fn lemma_ip_map_cons(e: IpEntry, t: Seq<IpEntry>)
    ensures
        ip_map(seq![e] + t) =~= map![e.ip => e.stats].union_prefer_right(ip_map(t)),
    decreases t.len(),
{
    if t.len() == 0 {
        assert(seq![e] + t =~= seq![e]);
        assert(ip_map(seq![e]) == ip_map(Seq::<IpEntry>::empty()).insert(e.ip, e.stats)) by {
            assert(seq![e].drop_last() =~= Seq::<IpEntry>::empty());
            assert(seq![e].last() == e);
        }
    } else {
        let u = seq![e] + t;
        assert(u.drop_last() =~= seq![e] + t.drop_last());
        assert(u.last() == t.last());
        lemma_ip_map_cons(e, t.drop_last());
    }
}

proof fn lemma_insert_all_ip_fold(m0: Map<IpAddress, PacketStats>, s: Seq<IpEntry>)
    ensures
        insert_all_ip(m0, s) =~= m0.union_prefer_right(ip_map(s)),
    decreases s.len(),
{
    if s.len() == 0 {
    } else {
        let e = s[0];
        let t = s.drop_first();
        lemma_insert_all_ip_fold(m0.insert(e.ip, e.stats), t);
        assert(s =~= seq![e] + t);
        lemma_ip_map_cons(e, t);
    }
}

/// Reading the members of a per-interface object back, in order, yields
/// exactly the mapping the entry list denotes.
proof fn lemma_insert_all_ip_map(s: Seq<IpEntry>)
    ensures
        insert_all_ip(Map::empty(), s) == ip_map(s),
{
    lemma_insert_all_ip_fold(Map::empty(), s);
    assert(Map::<IpAddress, PacketStats>::empty().union_prefer_right(ip_map(s)) =~= ip_map(s));
}

proof fn lemma_tbl_map_cons(e: InterfaceStats, t: Seq<InterfaceStats>)
    ensures
        tbl_map(seq![e] + t) =~= map![e.name@ => ip_map(e.entries@)].union_prefer_right(tbl_map(t)),
    decreases t.len(),
{
    if t.len() == 0 {
        assert(seq![e] + t =~= seq![e]);
        assert(tbl_map(seq![e]) == tbl_map(Seq::<InterfaceStats>::empty()).insert(
            e.name@,
            ip_map(e.entries@),
        )) by {
            assert(seq![e].drop_last() =~= Seq::<InterfaceStats>::empty());
            assert(seq![e].last() == e);
        }
    } else {
        let u = seq![e] + t;
        assert(u.drop_last() =~= seq![e] + t.drop_last());
        assert(u.last() == t.last());
        lemma_tbl_map_cons(e, t.drop_last());
    }
}

proof fn lemma_insert_all_tbl_fold(
    m0: Map<Seq<u8>, Map<IpAddress, PacketStats>>,
    s: Seq<InterfaceStats>,
)
    ensures
        insert_all_tbl(m0, s) =~= m0.union_prefer_right(tbl_map(s)),
    decreases s.len(),
{
    if s.len() == 0 {
    } else {
        let e = s[0];
        let t = s.drop_first();
        lemma_insert_all_tbl_fold(m0.insert(e.name@, ip_map(e.entries@)), t);
        assert(s =~= seq![e] + t);
        lemma_tbl_map_cons(e, t);
    }
}

/// Round trip: the combined snapshot document written for any counter
/// table whose interface names need no escaping reads back as exactly the
/// mapping the table held — same keys, same counts and sizes.
#[verifier::rlimit(100)]
pub proof fn lemma_snapshot_round_trip(rows: Seq<InterfaceStats>)
    ensures
        sp_snapshot(render_table(rows)) == Some(tbl_map(rows)),
{
    let s = render_table(rows);
    let re = render_tbl_entries(rows);
    assert(s[0] == LBRACE);
    assert(s[s.len() - 1] == RBRACE);
    assert(ws_end(s, 0) == 0);
    if rows.len() == 0 {
        assert(re.len() == 0);
        assert(s.len() == 2);
        assert(s[1] == RBRACE);
        assert(ws_end(s, 1) == 1);
        assert(ws_end(s, 2) == 2);
        assert(tbl_map(rows) =~= Map::<Seq<u8>, Map<IpAddress, PacketStats>>::empty());
    } else {
        assert(re.len() >= 1) by {
            assert(render_tbl_entry(rows[0]).len() >= 1);
        }
        assert(s.subrange(1, 1 + re.len() as int) =~= re);
        assert(s[1 + re.len() as int] == RBRACE);
        assert(s[1] == re[0]);
        assert(re[0] == Q) by {
            assert(render_tbl_entry(rows[0])[0] == Q);
        }
        assert(ws_end(s, 1) == 1);
        lemma_sp_tbl_entries_at(s, 1, rows, Map::empty());
        assert(ws_end(s, s.len() as int) == s.len() as int);
        lemma_insert_all_tbl_fold(Map::empty(), rows);
        assert(Map::<Seq<u8>, Map<IpAddress, PacketStats>>::empty().union_prefer_right(
            tbl_map(rows),
        ) =~= tbl_map(rows));
        assert(sp_snapshot(s) == Some(insert_all_tbl(Map::empty(), rows)));
    }
}

/// Where the run of hexadecimal digits that starts at `i` ends.
fn hex_run_end(s: &Vec<u8>, i: usize) -> (r: usize)
    requires
        i <= s@.len(),
    ensures
        r == run_end(16, s@, i as int),
        i <= r <= s@.len(),
{
    let mut k: usize = i;
    proof {
        crate::text::lemma_run_end_bounds(16, s@, i as int);
    }
    loop
        invariant
            i <= k <= s@.len(),
            run_end(16, s@, i as int) == run_end(16, s@, k as int),
        ensures
            i <= k <= s@.len(),
            run_end(16, s@, i as int) == run_end(16, s@, k as int),
            k == s@.len() || !is_digit_b(16, s@[k as int]),
        decreases s@.len() - k,
    {
        if k >= s.len() {
            break;
        }
        if crate::text::digit_of(s[k], true).is_none() {
            break;
        }
        proof {
            assert(run_end(16, s@, k as int) == run_end(16, s@, k as int + 1));
        }
        k += 1;
    }
    proof {
        assert(run_end(16, s@, k as int) == k as int);
    }
    k
}

/// Where the run of insignificant bytes that starts at `i` ends.
fn skip_ws(s: &Vec<u8>, i: usize) -> (r: usize)
    requires
        i <= s@.len(),
    ensures
        r == ws_end(s@, i as int),
        i <= r <= s@.len(),
{
    let mut k: usize = i;
    proof {
        lemma_ws_end_bounds(s@, i as int);
    }
    loop
        invariant
            i <= k <= s@.len(),
            ws_end(s@, i as int) == ws_end(s@, k as int),
        ensures
            i <= k <= s@.len(),
            ws_end(s@, i as int) == ws_end(s@, k as int),
            k == s@.len() || !is_ws(s@[k as int]),
        decreases s@.len() - k,
    {
        if k >= s.len() {
            break;
        }
        let b = s[k];
        if b == 32 || b == 9 || b == 10 || b == 13 {
            proof {
                assert(ws_end(s@, k as int) == ws_end(s@, k as int + 1));
            }
            k += 1;
        } else {
            break;
        }
    }
    proof {
        assert(ws_end(s@, k as int) == k as int);
    }
    k
}

/// A name at `i`, unescaped, up to the closing quote.
fn parse_name(s: &Vec<u8>, i: usize) -> (r: Option<(Vec<u8>, usize)>)
    requires
        i <= s@.len(),
    ensures
        match sp_name(s@, i as int, Seq::<u8>::empty()) {
            None => r is None,
            Some(v) => (match r {
                Some(p) => p.0@ == v.0 && p.1 == v.1,
                None => false,
            }),
        },
        r matches Some(p) ==> i <= p.1 < s@.len(),
{
    let mut k: usize = i;
    let mut out: Vec<u8> = Vec::new();
    proof {
        assert(out@ =~= Seq::<u8>::empty());
    }
    loop
        invariant
            i <= k <= s@.len(),
            sp_name(s@, i as int, Seq::<u8>::empty()) == sp_name(s@, k as int, out@),
        decreases s@.len() - k,
    {
        if k >= s.len() {
            return None;
        }
        let b = s[k];
        if b == Q {
            return Some((out, k));
        }
        if b == BACKSLASH {
            if k + 1 >= s.len() {
                return None;
            }
            let e = s[k + 1];
            if e == Q {
                out.push(Q);
                k += 2;
            } else if e == BACKSLASH {
                out.push(BACKSLASH);
                k += 2;
            } else if e == 47 {
                out.push(47);
                k += 2;
            } else if e == 98 {
                out.push(8);
                k += 2;
            } else if e == 116 {
                out.push(9);
                k += 2;
            } else if e == 110 {
                out.push(10);
                k += 2;
            } else if e == 102 {
                out.push(12);
                k += 2;
            } else if e == 114 {
                out.push(13);
                k += 2;
            } else if e == 117 {
                if s.len() - k < 6 {
                    return None;
                }
                let d2 = crate::text::digit_of(s[k + 2], true);
                let d3 = crate::text::digit_of(s[k + 3], true);
                let d4 = crate::text::digit_of(s[k + 4], true);
                let d5 = crate::text::digit_of(s[k + 5], true);
                match (d2, d3, d4, d5) {
                    (Some(x2), Some(x3), Some(x4), Some(x5)) => {
                        let v: u32 = (x2 as u32) * 4096 + (x3 as u32) * 256 + (x4 as u32) * 16
                            + (x5 as u32);
                        if v > 255 {
                            return None;
                        }
                        out.push(v as u8);
                        k += 6;
                    },
                    _ => {
                        return None;
                    },
                }
            } else {
                return None;
            }
        } else {
            out.push(b);
            k += 1;
        }
    }
}

/// A decimal octet at `i`.
fn parse_dec_u8(s: &Vec<u8>, i: usize) -> (r: Option<(u8, usize)>)
    requires
        i <= s@.len(),
    ensures
        r == (match sp_dec_u8(s@, i as int) {
            None => None::<(u8, usize)>,
            Some(v) => Some((v.0, v.1 as usize)),
        }),
        (match sp_dec_u8(s@, i as int) {
            None => true,
            Some(v) => i <= v.1 <= s@.len(),
        }),
{
    proof {
        crate::text::lemma_run_end_bounds(10, s@, i as int);
    }
    match parse_num(s, i, false) {
        None => None,
        Some((v, j)) => {
            if v <= 255 {
                Some((v as u8, j))
            } else {
                None
            }
        },
    }
}

/// A hexadecimal group at `i`.
fn parse_hex16(s: &Vec<u8>, i: usize) -> (r: Option<(u16, usize)>)
    requires
        i <= s@.len(),
    ensures
        r == (match sp_hex16(s@, i as int) {
            None => None::<(u16, usize)>,
            Some(v) => Some((v.0, v.1 as usize)),
        }),
        (match sp_hex16(s@, i as int) {
            None => true,
            Some(v) => i <= v.1 <= s@.len(),
        }),
{
    proof {
        crate::text::lemma_run_end_bounds(16, s@, i as int);
    }
    match parse_num(s, i, true) {
        None => None,
        Some((v, j)) => {
            if v <= 0xffff {
                Some((v as u16, j))
            } else {
                None
            }
        },
    }
}

/// A colon and a hexadecimal group at `i`.
fn parse_colon_hex16(s: &Vec<u8>, i: usize) -> (r: Option<(u16, usize)>)
    requires
        i <= s@.len(),
    ensures
        r == (match sp_colon_hex16(s@, i as int) {
            None => None::<(u16, usize)>,
            Some(v) => Some((v.0, v.1 as usize)),
        }),
        (match sp_colon_hex16(s@, i as int) {
            None => true,
            Some(v) => i <= v.1 <= s@.len(),
        }),
{
    if i < s.len() && s[i] == COLON {
        parse_hex16(s, i + 1)
    } else {
        None
    }
}

/// A dot and a decimal octet at `i`.
fn parse_dot_u8(s: &Vec<u8>, i: usize) -> (r: Option<(u8, usize)>)
    requires
        i <= s@.len(),
    ensures
        r == (match sp_dot_u8(s@, i as int) {
            None => None::<(u8, usize)>,
            Some(v) => Some((v.0, v.1 as usize)),
        }),
        (match sp_dot_u8(s@, i as int) {
            None => true,
            Some(v) => i <= v.1 <= s@.len(),
        }),
{
    if i < s.len() && s[i] == DOT {
        parse_dec_u8(s, i + 1)
    } else {
        None
    }
}

/// An address key at `i`.
#[verifier::rlimit(100)]
fn parse_ip(s: &Vec<u8>, i: usize) -> (r: Option<(IpAddress, usize)>)
    requires
        i <= s@.len(),
    ensures
        r == (match sp_ip(s@, i as int) {
            None => None::<(IpAddress, usize)>,
            Some(v) => Some((v.0, v.1 as usize)),
        }),
        (match sp_ip(s@, i as int) {
            None => true,
            Some(v) => i <= v.1 <= s@.len(),
        }),
{
    let h = hex_run_end(s, i);
    if h < s.len() && s[h] == DOT {
        match parse_dec_u8(s, i) {
            None => None,
            Some((a, j1)) => match parse_dot_u8(s, j1) {
                None => None,
                Some((b, j2)) => match parse_dot_u8(s, j2) {
                    None => None,
                    Some((c, j3)) => match parse_dot_u8(s, j3) {
                        None => None,
                        Some((d, j4)) => Some((IpAddress::V4 { a, b, c, d }, j4)),
                    },
                },
            },
        }
    } else if h < s.len() && s[h] == COLON {
        match parse_v6_full(s, i) {
            Some(v) => Some(v),
            None => parse_v6_compressed(s, i),
        }
    } else {
        None
    }
}

/// The eight uncompressed groups of an IPv6 key at `i`.
#[verifier::rlimit(100)]
fn parse_v6_full(s: &Vec<u8>, i: usize) -> (r: Option<(IpAddress, usize)>)
    requires
        i <= s@.len(),
    ensures
        r == (match sp_v6(s@, i as int) {
            None => None::<(IpAddress, usize)>,
            Some(v) => Some((v.0, v.1 as usize)),
        }),
        (match sp_v6(s@, i as int) {
            None => true,
            Some(v) => i <= v.1 <= s@.len(),
        }),
{
    let _len: usize = s.len();
    let (g0, j0) = match parse_hex16(s, i) {
        None => {
            return None;
        },
        Some(p) => p,
    };
    let (g1, j1) = match parse_colon_hex16(s, j0) {
        None => {
            return None;
        },
        Some(p) => p,
    };
    let (g2, j2) = match parse_colon_hex16(s, j1) {
        None => {
            return None;
        },
        Some(p) => p,
    };
    let (g3, j3) = match parse_colon_hex16(s, j2) {
        None => {
            return None;
        },
        Some(p) => p,
    };
    let (g4, j4) = match parse_colon_hex16(s, j3) {
        None => {
            return None;
        },
        Some(p) => p,
    };
    let (g5, j5) = match parse_colon_hex16(s, j4) {
        None => {
            return None;
        },
        Some(p) => p,
    };
    let (g6, j6) = match parse_colon_hex16(s, j5) {
        None => {
            return None;
        },
        Some(p) => p,
    };
    let (g7, j7) = match parse_colon_hex16(s, j6) {
        None => {
            return None;
        },
        Some(p) => p,
    };
    Some((IpAddress::V6 { g0, g1, g2, g3, g4, g5, g6, g7 }, j7))
}

/// A strict group list at `i`, appended to `out`.
#[verifier::rlimit(100)]
fn parse_v6_glist(s: &Vec<u8>, i: usize, out: &mut Vec<u16>) -> (r: Option<usize>)
    requires
        i <= s@.len(),
    ensures
        match sp_v6_glist(s@, i as int, old(out)@) {
            None => r == None::<usize>,
            Some(v) => r == Some(v.1 as usize) && final(out)@ == v.0,
        },
        (match sp_v6_glist(s@, i as int, old(out)@) {
            None => true,
            Some(v) => i <= v.1 <= s@.len(),
        }),
    decreases s@.len() - i,
{
    let _len: usize = s.len();
    match parse_hex16(s, i) {
        None => None,
        Some((g, j)) => {
            if j <= i {
                return None;
            }
            out.push(g);
            if j < s.len() && s[j] == COLON {
                if j + 1 < s.len() && s[j + 1] == COLON {
                    Some(j)
                } else {
                    parse_v6_glist(s, j + 1, out)
                }
            } else {
                Some(j)
            }
        },
    }
}

/// The groups before a `::` gap at `i`, appended to `out`; the index
/// returned points just past the gap.
#[verifier::rlimit(100)]
fn parse_v6_before(s: &Vec<u8>, i: usize, out: &mut Vec<u16>) -> (r: Option<usize>)
    requires
        i <= s@.len(),
    ensures
        match sp_v6_before(s@, i as int, old(out)@) {
            None => r == None::<usize>,
            Some(v) => r == Some(v.1 as usize) && final(out)@ == v.0,
        },
        (match sp_v6_before(s@, i as int, old(out)@) {
            None => true,
            Some(v) => i <= v.1 <= s@.len(),
        }),
    decreases s@.len() - i,
{
    let _len: usize = s.len();
    match parse_hex16(s, i) {
        None => None,
        Some((g, j)) => {
            if j <= i {
                return None;
            }
            out.push(g);
            if j < s.len() && s[j] == COLON {
                if j + 1 < s.len() && s[j + 1] == COLON {
                    Some(j + 2)
                } else {
                    parse_v6_before(s, j + 1, out)
                }
            } else {
                None
            }
        },
    }
}

/// One group of the eight that a gap form denotes.
fn v6_group_at(before: &Vec<u16>, after: &Vec<u16>, k: usize) -> (r: u16)
    requires
        before@.len() + after@.len() <= 8,
        k < 8,
    ensures
        r == v6_fill(before@, after@)[k as int],
{
    let b = before.len();
    let a = after.len();
    if k < b {
        before[k]
    } else if k < 8 - a {
        0
    } else {
        after[k - (8 - a)]
    }
}

/// A compressed IPv6 key at `i`.
#[verifier::rlimit(100)]
fn parse_v6_compressed(s: &Vec<u8>, i: usize) -> (r: Option<(IpAddress, usize)>)
    requires
        i <= s@.len(),
    ensures
        r == (match sp_v6c(s@, i as int) {
            None => None::<(IpAddress, usize)>,
            Some(v) => Some((v.0, v.1 as usize)),
        }),
        (match sp_v6c(s@, i as int) {
            None => true,
            Some(v) => i <= v.1 <= s@.len(),
        }),
{
    if i < s.len() && s[i] == COLON && i + 1 < s.len() && s[i + 1] == COLON {
        if i + 2 < s.len() && crate::text::digit_of(s[i + 2], true).is_some() {
            let empty_before: Vec<u16> = Vec::new();
            let mut after: Vec<u16> = Vec::new();
            match parse_v6_glist(s, i + 2, &mut after) {
                None => None,
                Some(j) => {
                    if after.len() <= 7 {
                        let ip = IpAddress::V6 {
                            g0: v6_group_at(&empty_before, &after, 0),
                            g1: v6_group_at(&empty_before, &after, 1),
                            g2: v6_group_at(&empty_before, &after, 2),
                            g3: v6_group_at(&empty_before, &after, 3),
                            g4: v6_group_at(&empty_before, &after, 4),
                            g5: v6_group_at(&empty_before, &after, 5),
                            g6: v6_group_at(&empty_before, &after, 6),
                            g7: v6_group_at(&empty_before, &after, 7),
                        };
                        Some((ip, j))
                    } else {
                        None
                    }
                },
            }
        } else {
            Some((
                IpAddress::V6 { g0: 0, g1: 0, g2: 0, g3: 0, g4: 0, g5: 0, g6: 0, g7: 0 },
                i + 2,
            ))
        }
    } else {
        let mut before: Vec<u16> = Vec::new();
        match parse_v6_before(s, i, &mut before) {
            None => None,
            Some(k) => {
                if k < s.len() && crate::text::digit_of(s[k], true).is_some() {
                    let mut after: Vec<u16> = Vec::new();
                    match parse_v6_glist(s, k, &mut after) {
                        None => None,
                        Some(j) => {
                            if before.len() <= 7 && after.len() <= 7 - before.len() {
                                let ip = IpAddress::V6 {
                                    g0: v6_group_at(&before, &after, 0),
                                    g1: v6_group_at(&before, &after, 1),
                                    g2: v6_group_at(&before, &after, 2),
                                    g3: v6_group_at(&before, &after, 3),
                                    g4: v6_group_at(&before, &after, 4),
                                    g5: v6_group_at(&before, &after, 5),
                                    g6: v6_group_at(&before, &after, 6),
                                    g7: v6_group_at(&before, &after, 7),
                                };
                                Some((ip, j))
                            } else {
                                None
                            }
                        },
                    }
                } else if before.len() <= 7 {
                    let empty_after: Vec<u16> = Vec::new();
                    let ip = IpAddress::V6 {
                        g0: v6_group_at(&before, &empty_after, 0),
                        g1: v6_group_at(&before, &empty_after, 1),
                        g2: v6_group_at(&before, &empty_after, 2),
                        g3: v6_group_at(&before, &empty_after, 3),
                        g4: v6_group_at(&before, &empty_after, 4),
                        g5: v6_group_at(&before, &empty_after, 5),
                        g6: v6_group_at(&before, &empty_after, 6),
                        g7: v6_group_at(&before, &empty_after, 7),
                    };
                    Some((ip, k))
                } else {
                    None
                }
            },
        }
    }
}

/// A stats object at `i`.
fn parse_stats(s: &Vec<u8>, i: usize) -> (r: Option<(PacketStats, usize)>)
    requires
        i <= s@.len(),
    ensures
        r == (match sp_stats(s@, i as int) {
            None => None::<(PacketStats, usize)>,
            Some(v) => Some((v.0, v.1 as usize)),
        }),
        (match sp_stats(s@, i as int) {
            None => true,
            Some(v) => i <= v.1 <= s@.len(),
        }),
{
    if !(i < s.len() && s[i] == LBRACE) {
        return None;
    }
    let i1 = skip_ws(s, i + 1);
    if s.len() - i1 < 7 || s[i1] != Q || s[i1 + 1] != 99 || s[i1 + 2] != 111 || s[i1 + 3] != 117
        || s[i1 + 4] != 110 || s[i1 + 5] != 116 || s[i1 + 6] != Q {
        proof {
            if is_lit_at(s@, i1 as int, lit_countq()) {
                assert(s@.subrange(i1 as int, i1 + 7)[0] == Q);
                assert(s@.subrange(i1 as int, i1 + 7)[1] == 99);
                assert(s@.subrange(i1 as int, i1 + 7)[2] == 111);
                assert(s@.subrange(i1 as int, i1 + 7)[3] == 117);
                assert(s@.subrange(i1 as int, i1 + 7)[4] == 110);
                assert(s@.subrange(i1 as int, i1 + 7)[5] == 116);
                assert(s@.subrange(i1 as int, i1 + 7)[6] == Q);
            }
        }
        return None;
    }
    proof {
        assert(s@.subrange(i1 as int, i1 + 7) =~= lit_countq());
    }
    let i2 = skip_ws(s, i1 + 7);
    if !(i2 < s.len() && s[i2] == COLON) {
        return None;
    }
    let i3 = skip_ws(s, i2 + 1);
    proof {
        crate::text::lemma_run_end_bounds(10, s@, i3 as int);
    }
    match parse_num(s, i3, false) {
        None => None,
        Some((c, j)) => {
            let j1 = skip_ws(s, j);
            if !(j1 < s.len() && s[j1] == COMMA) {
                return None;
            }
            let i4 = skip_ws(s, j1 + 1);
            if s.len() - i4 < 6 || s[i4] != Q || s[i4 + 1] != 115 || s[i4 + 2] != 105
                || s[i4 + 3] != 122 || s[i4 + 4] != 101 || s[i4 + 5] != Q {
                proof {
                    if is_lit_at(s@, i4 as int, lit_sizeq()) {
                        assert(s@.subrange(i4 as int, i4 + 6)[0] == Q);
                        assert(s@.subrange(i4 as int, i4 + 6)[1] == 115);
                        assert(s@.subrange(i4 as int, i4 + 6)[2] == 105);
                        assert(s@.subrange(i4 as int, i4 + 6)[3] == 122);
                        assert(s@.subrange(i4 as int, i4 + 6)[4] == 101);
                        assert(s@.subrange(i4 as int, i4 + 6)[5] == Q);
                    }
                }
                return None;
            }
            proof {
                assert(s@.subrange(i4 as int, i4 + 6) =~= lit_sizeq());
            }
            let i5 = skip_ws(s, i4 + 6);
            if !(i5 < s.len() && s[i5] == COLON) {
                return None;
            }
            let i6 = skip_ws(s, i5 + 1);
            proof {
                crate::text::lemma_run_end_bounds(10, s@, i6 as int);
            }
            match parse_num(s, i6, false) {
                None => None,
                Some((z, j2)) => {
                    let j3 = skip_ws(s, j2);
                    if j3 < s.len() && s[j3] == RBRACE {
                        Some((PacketStats { count: c, size: z }, j3 + 1))
                    } else {
                        None
                    }
                },
            }
        },
    }
}

/// The members of a per-interface object at `i`, folded into `iface`.
#[verifier::rlimit(100)]
fn parse_ip_entries(s: &Vec<u8>, i: usize, iface: &mut InterfaceStats) -> (r: Option<usize>)
    requires
        i <= s@.len(),
        old(iface).wf(),
    ensures
        final(iface).wf(),
        final(iface).name@ == old(iface).name@,
        match sp_ip_entries(s@, i as int, old(iface)@) {
            None => r == None::<usize>,
            Some(v) => r == Some(v.1 as usize) && final(iface)@ == v.0,
        },
        (match sp_ip_entries(s@, i as int, old(iface)@) {
            None => true,
            Some(v) => i <= v.1 <= s@.len(),
        }),
    decreases s@.len() - i,
{
    let i0 = skip_ws(s, i);
    if i0 >= s.len() || s[i0] != Q {
        return None;
    }
    match parse_ip(s, i0 + 1) {
        None => None,
        Some((ip, j)) => {
            if !(j < s.len() && s[j] == Q) {
                return None;
            }
            let jc = skip_ws(s, j + 1);
            if !(jc < s.len() && s[jc] == COLON) {
                return None;
            }
            let jv = skip_ws(s, jc + 1);
            match parse_stats(s, jv) {
                None => None,
                Some((st, j2)) => {
                    if j2 <= i || j2 >= s.len() {
                        return None;
                    }
                    iface.upsert(ip, st);
                    let jw = skip_ws(s, j2);
                    if jw < s.len() && s[jw] == COMMA {
                        parse_ip_entries(s, jw + 1, iface)
                    } else if jw < s.len() && s[jw] == RBRACE {
                        Some(jw + 1)
                    } else {
                        None
                    }
                },
            }
        },
    }
}

/// A whole per-interface object at `i`, folded into `iface`.
fn parse_iface_doc(s: &Vec<u8>, i: usize, iface: &mut InterfaceStats) -> (r: Option<usize>)
    requires
        i <= s@.len(),
        old(iface).wf(),
    ensures
        final(iface).wf(),
        final(iface).name@ == old(iface).name@,
        match sp_iface_doc(s@, i as int, old(iface)@) {
            None => r == None::<usize>,
            Some(v) => r == Some(v.1 as usize) && final(iface)@ == v.0,
        },
        (match sp_iface_doc(s@, i as int, old(iface)@) {
            None => true,
            Some(v) => i <= v.1 <= s@.len(),
        }),
{
    if !(i < s.len() && s[i] == LBRACE) {
        return None;
    }
    let i1 = skip_ws(s, i + 1);
    if i1 < s.len() && s[i1] == RBRACE {
        Some(i1 + 1)
    } else {
        parse_ip_entries(s, i + 1, iface)
    }
}

/// The members of the combined object at `i`, folded into `t`.
#[verifier::rlimit(100)]
fn parse_tbl_entries(s: &Vec<u8>, i: usize, t: &mut CounterTable) -> (r: Option<usize>)
    requires
        i <= s@.len(),
        old(t).wf(),
    ensures
        final(t).wf(),
        match sp_tbl_entries(s@, i as int, old(t)@) {
            None => r == None::<usize>,
            Some(v) => r == Some(v.1 as usize) && final(t)@ == v.0,
        },
        (match sp_tbl_entries(s@, i as int, old(t)@) {
            None => true,
            Some(v) => i <= v.1 <= s@.len(),
        }),
    decreases s@.len() - i,
{
    let i0 = skip_ws(s, i);
    if i0 >= s.len() || s[i0] != Q {
        return None;
    }
    match parse_name(s, i0 + 1) {
        None => None,
        Some((name, j)) => {
            let jc = skip_ws(s, j + 1);
            if !(jc < s.len() && s[jc] == COLON) {
                return None;
            }
            let jv = skip_ws(s, jc + 1);
            let mut row = InterfaceStats { name, entries: Vec::new() };
            proof {
                assert(row@ =~= Map::<IpAddress, PacketStats>::empty());
            }
            match parse_iface_doc(s, jv, &mut row) {
                None => None,
                Some(j2) => {
                    if j2 <= i || j2 >= s.len() {
                        return None;
                    }
                    t.upsert_iface(row);
                    let jw = skip_ws(s, j2);
                    if jw < s.len() && s[jw] == COMMA {
                        parse_tbl_entries(s, jw + 1, t)
                    } else if jw < s.len() && s[jw] == RBRACE {
                        Some(jw + 1)
                    } else {
                        None
                    }
                },
            }
        },
    }
}

/// Reload a combined snapshot document: the table it denotes, or nothing
/// when the document is not one this codec writes.
pub fn parse_snapshot(s: &Vec<u8>) -> (r: Option<CounterTable>)
    ensures
        match sp_snapshot(s@) {
            None => r is None,
            Some(m) => r matches Some(t) && t.wf() && t@ == m,
        },
{
    let w0 = skip_ws(s, 0);
    if !(w0 < s.len() && s[w0] == LBRACE) {
        return None;
    }
    let w1 = skip_ws(s, w0 + 1);
    if w1 < s.len() && s[w1] == RBRACE {
        if skip_ws(s, w1 + 1) == s.len() {
            Some(CounterTable::new())
        } else {
            None
        }
    } else {
        let mut t = CounterTable::new();
        match parse_tbl_entries(s, w0 + 1, &mut t) {
            None => None,
            Some(j) => {
                if skip_ws(s, j) == s.len() {
                    Some(t)
                } else {
                    None
                }
            },
        }
    }
}

/// Serialize a table and reload it: the result holds exactly the same
/// mapping.  The impossible parse failure falls back to an empty table.
pub fn reload_snapshot(t: &CounterTable) -> (r: CounterTable)
    ensures
        r.wf(),
        r@ == t@,
{
    let bytes = render_snapshot(t);
    proof {
        lemma_snapshot_round_trip(t.ifaces@);
    }
    match parse_snapshot(&bytes) {
        Some(x) => x,
        None => CounterTable::new(),
    }
}

} // verus!
