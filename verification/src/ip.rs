//! Textual IP addresses, and which of them lie on the local network.
//!
//! An IPv4 address is four decimal numbers up to 255, without leading zeros, with dots between them.
//! An IPv6 address is eight groups of one to four hexadecimal digits with colons between them. The
//! last two groups may be written as an IPv4 address, and one run of zero groups may be written as
//! two colons.

use vstd::arithmetic::power2::pow2;
use vstd::prelude::*;

use crate::text::{
    char_texts, chars_of, decimal, digits_value, is_digit, join, law_join_undoes_split, law_split_undoes_join,
    lemma_decimal, lemma_digits_are_decimal, split, split_chars,
};

verus! {

/// An IP address: the four bytes, or the eight groups.
#[derive(Clone, Copy, Debug, PartialEq, Eq)]
pub enum IpAddress {
    V4([u8; 4]),
    V6([u16; 8]),
}

/// What an IP address holds.
pub enum IpView {
    V4(Seq<u8>),
    V6(Seq<u16>),
}

impl View for IpAddress {
    type V = IpView;

    open spec fn view(&self) -> IpView {
        match *self {
            IpAddress::V4(o) => IpView::V4(o@),
            IpAddress::V6(g) => IpView::V6(g@),
        }
    }
}

// ----- The notation -----

/// The number that an IPv4 address has between two dots.
pub open spec fn octet_of(s: Seq<char>) -> Option<u8> {
    if 1 <= s.len() <= 3 && (forall|k: int| 0 <= k < s.len() ==> is_digit(#[trigger] s[k])) && (s.len()
        > 1 ==> s[0] != '0') && digits_value(s) <= 255 {
        Some(digits_value(s) as u8)
    } else {
        None
    }
}

/// The numbers that `pieces` denote, if each denotes one.
pub open spec fn octets_of(pieces: Seq<Seq<char>>) -> Option<Seq<u8>>
    decreases pieces.len(),
{
    if pieces.len() == 0 {
        Some(Seq::empty())
    } else {
        match (octets_of(pieces.drop_last()), octet_of(pieces.last())) {
            (Some(before), Some(o)) => Some(before.push(o)),
            _ => None,
        }
    }
}

/// The four bytes of the IPv4 address that `s` denotes.
pub open spec fn v4_of(s: Seq<char>) -> Option<Seq<u8>> {
    if split(s, '.').len() == 4 {
        octets_of(split(s, '.'))
    } else {
        None
    }
}

/// Whether `c` is a hexadecimal digit.
pub open spec fn is_hex(c: char) -> bool {
    '0' <= c <= '9' || 'a' <= c <= 'f' || 'A' <= c <= 'F'
}

/// The value of a hexadecimal digit.
pub open spec fn hex_digit(c: char) -> nat {
    if '0' <= c <= '9' {
        (c as u32 - 48) as nat
    } else if 'a' <= c <= 'f' {
        (c as u32 - 87) as nat
    } else {
        (c as u32 - 55) as nat
    }
}

/// The number that the hexadecimal digits `s` denote.
pub open spec fn hex_value(s: Seq<char>) -> nat
    decreases s.len(),
{
    if s.len() == 0 {
        0
    } else {
        hex_value(s.drop_last()) * 16 + hex_digit(s.last())
    }
}

/// The group that an IPv6 address has between two colons.
pub open spec fn group_of(s: Seq<char>) -> Option<u16> {
    if 1 <= s.len() <= 4 && (forall|k: int| 0 <= k < s.len() ==> is_hex(#[trigger] s[k])) {
        Some(hex_value(s) as u16)
    } else {
        None
    }
}

/// The groups that `pieces` denote, if each denotes one.
pub open spec fn groups_of(pieces: Seq<Seq<char>>) -> Option<Seq<u16>>
    decreases pieces.len(),
{
    if pieces.len() == 0 {
        Some(Seq::empty())
    } else {
        match (groups_of(pieces.drop_last()), group_of(pieces.last())) {
            (Some(before), Some(g)) => Some(before.push(g)),
            _ => None,
        }
    }
}

/// The two groups that hold the four bytes of an IPv4 address.
pub open spec fn v4_groups(o: Seq<u8>) -> Seq<u16> {
    seq![(o[0] * 256 + o[1]) as u16, (o[2] * 256 + o[3]) as u16]
}

/// The groups on one side of the two colons, or of an address without them. Only the end of an
/// address may be written as an IPv4 address.
pub open spec fn side_of(s: Seq<char>, at_end: bool) -> Option<Seq<u16>> {
    let pieces = split(s, ':');
    if s.len() == 0 {
        Some(Seq::empty())
    } else if at_end && v4_of(pieces.last()) is Some {
        match groups_of(pieces.drop_last()) {
            Some(before) => Some(before + v4_groups(v4_of(pieces.last())->0)),
            None => None,
        }
    } else {
        groups_of(pieces)
    }
}

/// Where two colons first stand side by side at or after `from`, or the length of `s`.
pub open spec fn double_colon(s: Seq<char>, from: int) -> int
    decreases s.len() - from,
{
    if from + 1 >= s.len() {
        s.len() as int
    } else if s[from] == ':' && s[from + 1] == ':' {
        from
    } else {
        double_colon(s, from + 1)
    }
}

/// The eight groups of the IPv6 address that `s` denotes.
pub open spec fn v6_of(s: Seq<char>) -> Option<Seq<u16>> {
    let i = double_colon(s, 0);
    if i == s.len() {
        match side_of(s, true) {
            Some(groups) => if groups.len() == 8 {
                Some(groups)
            } else {
                None
            },
            None => None,
        }
    } else {
        match (side_of(s.take(i), false), side_of(s.skip(i + 2), true)) {
            (Some(left), Some(right)) => if left.len() + right.len() <= 7 {
                Some(left + Seq::new((8 - left.len() - right.len()) as nat, |k: int| 0u16) + right)
            } else {
                None
            },
            _ => None,
        }
    }
}

/// The address that `s` denotes.
pub open spec fn ip_of(s: Seq<char>) -> Option<IpView> {
    match v4_of(s) {
        Some(o) => Some(IpView::V4(o)),
        None => match v6_of(s) {
            Some(g) => Some(IpView::V6(g)),
            None => None,
        },
    }
}

/// Whether an address lies on the local network. For IPv4 these are the private networks 10.0.0.0/8,
/// 172.16.0.0/12 and 192.168.0.0/16, the loopback network 127.0.0.0/8 and the link-local network
/// 169.254.0.0/16. For IPv6 these are the loopback address and the link-local network fe80::/10.
pub open spec fn on_local_network(a: IpView) -> bool {
    match a {
        IpView::V4(o) => {
            ||| o[0] == 10
            ||| o[0] == 172 && 16 <= o[1] <= 31
            ||| o[0] == 192 && o[1] == 168
            ||| o[0] == 127
            ||| o[0] == 169 && o[1] == 254
        },
        IpView::V6(g) => {
            ||| g == seq![0u16, 0u16, 0u16, 0u16, 0u16, 0u16, 0u16, 1u16]
            ||| 0xFE80 <= g[0] <= 0xFEBF
        },
    }
}

/// Whether `s` denotes an address on the local network.
pub open spec fn is_lan(s: Seq<char>) -> bool {
    ip_of(s) matches Some(a) && on_local_network(a)
}

/// An IPv4 address as text.
pub open spec fn dotted(o: Seq<u8>) -> Seq<char> {
    join(o.map_values(|b: u8| decimal(b as nat)), '.')
}

/// An IPv4 address that is written with dots is read back.
pub proof fn law_dotted_address_is_read_back(o: Seq<u8>)
    requires
        o.len() == 4,
    ensures
        v4_of(dotted(o)) == Some(o),
        ip_of(dotted(o)) == Some(IpView::V4(o)),
{
    let texts = o.map_values(|b: u8| decimal(b as nat));
    assert forall|k: int| 0 <= k < 4 implies !(#[trigger] texts[k]).contains('.') && octet_of(texts[k])
        == Some(o[k]) by {
        let n = o[k] as nat;
        let s = decimal(n);
        lemma_decimal(n);
        lemma_decimal(n / 10);
        lemma_decimal(n / 10 / 10);
        assert forall|i: int| 0 <= i < s.len() implies s[i] != '.' by {
            assert(is_digit(s[i]));
        }
    }
    law_split_undoes_join(texts, '.');
    reveal_with_fuel(octets_of, 5);
    assert(texts.drop_last() =~= texts.take(3));
    assert(texts.take(3).drop_last() =~= texts.take(2));
    assert(texts.take(2).drop_last() =~= texts.take(1));
    assert(texts.take(1).drop_last() =~= Seq::empty());
    assert(octet_of(texts[0]) == Some(o[0]) && octet_of(texts[1]) == Some(o[1]));
    assert(octet_of(texts[2]) == Some(o[2]) && octet_of(texts[3]) == Some(o[3]));
    assert(octets_of(texts)->0 =~= o);
}

// ----- Reading -----

fn read_octet(s: &Vec<char>) -> (r: Option<u8>)
    ensures
        r == octet_of(s@),
{
    if s.len() == 0 || s.len() > 3 {
        return None;
    }
    let mut value: u32 = 0;
    let mut i: usize = 0;
    assert(s@.take(0) =~= Seq::empty());
    while i < s.len()
        invariant
            i <= s@.len() <= 3,
            forall|k: int| 0 <= k < i ==> is_digit(#[trigger] s@[k]),
            value == digits_value(s@.take(i as int)),
            i == 0 ==> value == 0,
            i == 1 ==> value <= 9,
            i == 2 ==> value <= 99,
            i == 3 ==> value <= 999,
        decreases s@.len() - i,
    {
        let c = s[i];
        if c < '0' || c > '9' {
            assert(!is_digit(s@[i as int]));
            return None;
        }
        assert(s@.take(i + 1).drop_last() =~= s@.take(i as int));
        value = value * 10 + (c as u32 - 48);
        i = i + 1;
    }
    assert(s@.take(i as int) =~= s@);
    if (s.len() > 1 && s[0] == '0') || value > 255 {
        None
    } else {
        Some(value as u8)
    }
}

fn read_v4(s: &Vec<char>) -> (r: Option<[u8; 4]>)
    ensures
        match r {
            Some(o) => v4_of(s@) == Some(o@),
            None => v4_of(s@) is None,
        },
{
    let pieces = split_chars(s, '.');
    let ghost texts = char_texts(pieces@);
    if pieces.len() != 4 {
        return None;
    }
    let a = read_octet(&pieces[0]);
    let b = read_octet(&pieces[1]);
    let c = read_octet(&pieces[2]);
    let d = read_octet(&pieces[3]);
    proof {
        reveal_with_fuel(octets_of, 5);
        assert(texts.drop_last() =~= texts.take(3));
        assert(texts.take(3).drop_last() =~= texts.take(2));
        assert(texts.take(2).drop_last() =~= texts.take(1));
        assert(texts.take(1).drop_last() =~= Seq::empty());
    }
    match (a, b, c, d) {
        (Some(a), Some(b), Some(c), Some(d)) => {
            let o = [a, b, c, d];
            assert(octets_of(texts)->0 =~= o@);
            Some(o)
        },
        _ => None,
    }
}

fn read_group(s: &Vec<char>) -> (r: Option<u16>)
    ensures
        r == group_of(s@),
{
    if s.len() == 0 || s.len() > 4 {
        return None;
    }
    let mut value: u32 = 0;
    let mut i: usize = 0;
    assert(s@.take(0) =~= Seq::empty());
    while i < s.len()
        invariant
            i <= s@.len() <= 4,
            forall|k: int| 0 <= k < i ==> is_hex(#[trigger] s@[k]),
            value == hex_value(s@.take(i as int)),
            i == 0 ==> value == 0,
            i == 1 ==> value <= 0xF,
            i == 2 ==> value <= 0xFF,
            i == 3 ==> value <= 0xFFF,
            i == 4 ==> value <= 0xFFFF,
        decreases s@.len() - i,
    {
        let c = s[i];
        assert(s@.take(i + 1).drop_last() =~= s@.take(i as int));
        let d: u32 = if '0' <= c && c <= '9' {
            c as u32 - 48
        } else if 'a' <= c && c <= 'f' {
            c as u32 - 87
        } else if 'A' <= c && c <= 'F' {
            c as u32 - 55
        } else {
            assert(!is_hex(s@[i as int]));
            return None;
        };
        value = value * 16 + d;
        i = i + 1;
    }
    assert(s@.take(i as int) =~= s@);
    Some(value as u16)
}

proof fn lemma_groups_of_prefix(pieces: Seq<Seq<char>>, n: int)
    requires
        0 <= n <= pieces.len(),
        groups_of(pieces.take(n)) is None,
    ensures
        groups_of(pieces) is None,
    decreases pieces.len() - n,
{
    if n < pieces.len() {
        assert(pieces.take(n + 1).drop_last() =~= pieces.take(n));
        lemma_groups_of_prefix(pieces, n + 1);
    } else {
        assert(pieces.take(n) =~= pieces);
    }
}

fn read_groups(pieces: &Vec<Vec<char>>, n: usize) -> (r: Option<Vec<u16>>)
    requires
        n <= pieces@.len(),
    ensures
        match r {
            Some(g) => groups_of(char_texts(pieces@).take(n as int)) == Some(g@),
            None => groups_of(char_texts(pieces@).take(n as int)) is None,
        },
{
    let ghost texts = char_texts(pieces@).take(n as int);
    let mut out: Vec<u16> = Vec::new();
    let mut i: usize = 0;
    assert(texts.take(0) =~= Seq::empty());
    while i < n
        invariant
            i <= n <= pieces@.len(),
            texts == char_texts(pieces@).take(n as int),
            groups_of(texts.take(i as int)) == Some(out@),
        decreases n - i,
    {
        assert(texts.take(i + 1).drop_last() =~= texts.take(i as int));
        assert(texts.take(i + 1).last() == pieces@[i as int]@);
        match read_group(&pieces[i]) {
            Some(g) => {
                out.push(g);
            },
            None => {
                proof {
                    lemma_groups_of_prefix(texts, i + 1);
                }
                return None;
            },
        }
        i = i + 1;
    }
    assert(texts.take(i as int) =~= texts);
    Some(out)
}

fn sub_chars(s: &Vec<char>, from: usize, to: usize) -> (r: Vec<char>)
    requires
        from <= to <= s@.len(),
    ensures
        r@ == s@.subrange(from as int, to as int),
{
    vstd::slice::slice_to_vec(vstd::slice::slice_subrange(s.as_slice(), from, to))
}

fn read_side(s: &Vec<char>, at_end: bool) -> (r: Option<Vec<u16>>)
    ensures
        match r {
            Some(g) => side_of(s@, at_end) == Some(g@),
            None => side_of(s@, at_end) is None,
        },
{
    if s.len() == 0 {
        return Some(Vec::new());
    }
    let pieces = split_chars(s, ':');
    let n: usize = pieces.len();
    let ghost texts = char_texts(pieces@);
    proof {
        crate::text::law_join_undoes_split(s@, ':');
        assert(texts.take(n as int) =~= texts);
        assert(texts.take(n - 1) =~= texts.drop_last());
    }
    if at_end {
        if let Some(o) = read_v4(&pieces[n - 1]) {
            return match read_groups(&pieces, n - 1) {
                Some(before) => {
                    let mut out = before;
                    out.push(o[0] as u16 * 256 + o[1] as u16);
                    out.push(o[2] as u16 * 256 + o[3] as u16);
                    assert(out@ =~= before@ + v4_groups(o@));
                    Some(out)
                },
                None => None,
            };
        }
    }
    read_groups(&pieces, n)
}

fn find_double_colon(s: &Vec<char>) -> (r: usize)
    ensures
        r == double_colon(s@, 0),
        r <= s@.len(),
        r < s@.len() ==> r + 2 <= s@.len(),
{
    let mut i: usize = 0;
    while i < s.len() && i + 1 < s.len()
        invariant
            i <= s.len(),
            double_colon(s@, 0) == double_colon(s@, i as int),
        decreases s@.len() - i,
    {
        if s[i] == ':' && s[i + 1] == ':' {
            return i;
        }
        i = i + 1;
    }
    s.len()
}

fn eight_groups(g: &Vec<u16>) -> (r: [u16; 8])
    requires
        g@.len() == 8,
    ensures
        r@ == g@,
{
    let r = [g[0], g[1], g[2], g[3], g[4], g[5], g[6], g[7]];
    assert(r@ =~= g@);
    r
}

fn read_v6(s: &Vec<char>) -> (r: Option<[u16; 8]>)
    ensures
        match r {
            Some(g) => v6_of(s@) == Some(g@),
            None => v6_of(s@) is None,
        },
{
    let i: usize = find_double_colon(s);
    if i == s.len() {
        return match read_side(s, true) {
            Some(g) => if g.len() == 8 {
                Some(eight_groups(&g))
            } else {
                None
            },
            None => None,
        };
    }
    let left_text = sub_chars(s, 0, i);
    let right_text = sub_chars(s, i + 2, s.len());
    assert(left_text@ =~= s@.take(i as int));
    assert(right_text@ =~= s@.skip(i + 2));
    match (read_side(&left_text, false), read_side(&right_text, true)) {
        (Some(left), Some(right)) => {
            if left.len() > 7 || right.len() > 7 - left.len() {
                return None;
            }
            let ghost zeros = Seq::new((8 - left@.len() - right@.len()) as nat, |k: int| 0u16);
            let mut all: Vec<u16> = Vec::new();
            let mut k: usize = 0;
            while k < 8
                invariant
                    k <= 8,
                    left@.len() + right@.len() <= 7,
                    zeros == Seq::new((8 - left@.len() - right@.len()) as nat, |k: int| 0u16),
                    all@ == (left@ + zeros + right@).take(k as int),
                decreases 8 - k,
            {
                let g: u16 = if k < left.len() {
                    left[k]
                } else if k < 8 - right.len() {
                    0
                } else {
                    right[k - (8 - right.len())]
                };
                all.push(g);
                k = k + 1;
                assert(all@ =~= (left@ + zeros + right@).take(k as int));
            }
            assert(all@ =~= left@ + zeros + right@);
            Some(eight_groups(&all))
        },
        _ => None,
    }
}

/// Reads an IP address.
pub fn parse_ip(s: &str) -> (r: Option<IpAddress>)
    ensures
        match r {
            Some(a) => ip_of(s@) == Some(a@),
            None => ip_of(s@) is None,
        },
{
    let chars = chars_of(s);
    match read_v4(&chars) {
        Some(o) => Some(IpAddress::V4(o)),
        None => match read_v6(&chars) {
            Some(g) => Some(IpAddress::V6(g)),
            None => None,
        },
    }
}

/// Whether `ip` is an address on the local network.
pub fn is_lan_candidate_ip(ip: &str) -> (r: bool)
    ensures
        r == is_lan(ip@),
{
    match parse_ip(ip) {
        Some(IpAddress::V4(o)) => o[0] == 10 || (o[0] == 172 && 16 <= o[1] && o[1] <= 31) || (o[0] == 192
            && o[1] == 168) || o[0] == 127 || (o[0] == 169 && o[1] == 254),
        Some(IpAddress::V6(g)) => {
            let first: u16 = g[0];
            let ghost loopback = seq![0u16, 0u16, 0u16, 0u16, 0u16, 0u16, 0u16, 1u16];
            let is_loopback = g[0] == 0 && g[1] == 0 && g[2] == 0 && g[3] == 0 && g[4] == 0 && g[5] == 0
                && g[6] == 0 && g[7] == 1;
            proof {
                if is_loopback {
                    assert(g@ =~= loopback);
                } else {
                    assert(g@[0] != loopback[0] || g@[1] != loopback[1] || g@[2] != loopback[2] || g@[3]
                        != loopback[3] || g@[4] != loopback[4] || g@[5] != loopback[5] || g@[6]
                        != loopback[6] || g@[7] != loopback[7]);
                }
            }
            assert((first & 0xFFC0 == 0xFE80) == (0xFE80 <= first && first <= 0xFEBF)) by (bit_vector);
            is_loopback || (first & 0xFFC0) == 0xFE80
        },
        None => false,
    }
}

// ----- What holds of addresses -----

/// An IPv4 address as a number of 32 bits.
pub open spec fn v4_number(o: Seq<u8>) -> int {
    o[0] * 0x100_0000 + o[1] * 0x1_0000 + o[2] * 0x100 + o[3]
}

/// Whether the first `bits` bits of an address of 32 bits are those of the network's address.
pub open spec fn in_v4_network(address: int, network: int, bits: nat) -> bool {
    address / (pow2((32 - bits) as nat) as int) == network / (pow2((32 - bits) as nat) as int)
}

/// An IPv4 address lies on the local network exactly if it lies in one of five networks.
pub proof fn law_local_v4_networks(o: Seq<u8>)
    requires
        o.len() == 4,
    ensures
        ({
            let n = v4_number(o);
            on_local_network(IpView::V4(o)) <==> {
                ||| in_v4_network(n, v4_number(seq![10u8, 0u8, 0u8, 0u8]), 8)
                ||| in_v4_network(n, v4_number(seq![172u8, 16u8, 0u8, 0u8]), 12)
                ||| in_v4_network(n, v4_number(seq![192u8, 168u8, 0u8, 0u8]), 16)
                ||| in_v4_network(n, v4_number(seq![127u8, 0u8, 0u8, 0u8]), 8)
                ||| in_v4_network(n, v4_number(seq![169u8, 254u8, 0u8, 0u8]), 16)
            }
        }),
{
    vstd::arithmetic::power2::lemma2_to64();
    let n = v4_number(o);
    assert(pow2(24) == 0x100_0000 && pow2(20) == 0x10_0000 && pow2(16) == 0x1_0000);
    assert(n / 0x100_0000 == o[0]);
    assert(n / 0x1_0000 == o[0] * 256 + o[1]);
    assert(n / 0x10_0000 == o[0] * 16 + o[1] / 16);
    assert(v4_number(seq![10u8, 0u8, 0u8, 0u8]) == 10 * 0x100_0000);
    assert(v4_number(seq![172u8, 16u8, 0u8, 0u8]) == 172 * 0x100_0000 + 16 * 0x1_0000);
    assert(v4_number(seq![192u8, 168u8, 0u8, 0u8]) == 192 * 0x100_0000 + 168 * 0x1_0000);
    assert(v4_number(seq![127u8, 0u8, 0u8, 0u8]) == 127 * 0x100_0000);
    assert(v4_number(seq![169u8, 254u8, 0u8, 0u8]) == 169 * 0x100_0000 + 254 * 0x1_0000);
    assert((10int * 0x100_0000) / 0x100_0000 == 10 && (127int * 0x100_0000) / 0x100_0000 == 127);
    assert(in_v4_network(n, 10int * 0x100_0000, 8) <==> o[0] == 10);
    assert(in_v4_network(n, 127int * 0x100_0000, 8) <==> o[0] == 127);
    assert((172 * 0x100_0000 + 16 * 0x1_0000) / 0x10_0000 == 172 * 16 + 1);
    assert(in_v4_network(n, 172int * 0x100_0000 + 16 * 0x1_0000, 12) <==> o[0] * 16 + o[1] / 16 == 172 * 16 + 1);
    assert(o[0] * 16 + o[1] / 16 == 172 * 16 + 1 <==> o[0] == 172 && 16 <= o[1] <= 31);
    assert((192int * 0x100_0000 + 168 * 0x1_0000) / 0x1_0000 == 192 * 256 + 168);
    assert((169int * 0x100_0000 + 254 * 0x1_0000) / 0x1_0000 == 169 * 256 + 254);
    assert(in_v4_network(n, 192int * 0x100_0000 + 168 * 0x1_0000, 16) <==> o[0] == 192 && o[1] == 168);
    assert(in_v4_network(n, 169int * 0x100_0000 + 254 * 0x1_0000, 16) <==> o[0] == 169 && o[1] == 254);
}

/// An IPv6 address as a number of 128 bits.
pub open spec fn v6_number(g: Seq<u16>) -> int {
    ((((((g[0] * 0x1_0000 + g[1]) * 0x1_0000 + g[2]) * 0x1_0000 + g[3]) * 0x1_0000 + g[4]) * 0x1_0000 + g[5])
        * 0x1_0000 + g[6]) * 0x1_0000 + g[7]
}

/// An IPv6 address lies on the local network exactly if it is the loopback address, whose number is one, or
/// if its first ten bits are those of `fe80::`.
pub proof fn law_local_v6_networks(g: Seq<u16>)
    requires
        g.len() == 8,
    ensures
        on_local_network(IpView::V6(g)) <==> v6_number(g) == 1 || v6_number(g)
            / 0x40_0000_0000_0000_0000_0000_0000_0000 == v6_number(
            seq![0xFE80u16, 0u16, 0u16, 0u16, 0u16, 0u16, 0u16, 0u16],
        ) / 0x40_0000_0000_0000_0000_0000_0000_0000,
{
    let a = g[0] * 0x1_0000 + g[1];
    let b = a * 0x1_0000 + g[2];
    let c = b * 0x1_0000 + g[3];
    let d = c * 0x1_0000 + g[4];
    let e = d * 0x1_0000 + g[5];
    let f = e * 0x1_0000 + g[6];
    let n = f * 0x1_0000 + g[7];
    assert(n == v6_number(g));
    assert(n == g[0] * 0x1_0000_0000_0000_0000_0000_0000_0000 + (n - g[0]
        * 0x1_0000_0000_0000_0000_0000_0000_0000));
    assert(0 <= n - g[0] * 0x1_0000_0000_0000_0000_0000_0000_0000 < 0x1_0000_0000_0000_0000_0000_0000_0000);
    assert(n / 0x40_0000_0000_0000_0000_0000_0000_0000 == g[0] / 64);
    let link = seq![0xFE80u16, 0u16, 0u16, 0u16, 0u16, 0u16, 0u16, 0u16];
    assert(v6_number(link) == 0xFE80 * 0x1_0000_0000_0000_0000_0000_0000_0000);
    assert(v6_number(link) / 0x40_0000_0000_0000_0000_0000_0000_0000 == 0x3FA);
    let loopback = seq![0u16, 0u16, 0u16, 0u16, 0u16, 0u16, 0u16, 1u16];
    if n == 1 {
        assert(g =~= loopback);
    }
}

proof fn lemma_octet_is_decimal(s: Seq<char>)
    requires
        octet_of(s) is Some,
    ensures
        s == decimal(octet_of(s)->0 as nat),
{
    lemma_digits_are_decimal(s);
}

proof fn lemma_octets_are_decimal(pieces: Seq<Seq<char>>)
    requires
        octets_of(pieces) is Some,
    ensures
        octets_of(pieces)->0.len() == pieces.len(),
        pieces == (octets_of(pieces)->0).map_values(|b: u8| decimal(b as nat)),
    decreases pieces.len(),
{
    if pieces.len() > 0 {
        lemma_octets_are_decimal(pieces.drop_last());
        lemma_octet_is_decimal(pieces.last());
        let before = octets_of(pieces.drop_last())->0;
        let all = octets_of(pieces)->0;
        assert(pieces =~= pieces.drop_last().push(pieces.last()));
        assert(all.map_values(|b: u8| decimal(b as nat)) =~= before.map_values(|b: u8| decimal(b as nat)).push(
            pieces.last(),
        ));
    }
}

/// A text is an IPv4 address exactly if it is the four bytes in decimal notation with dots between them.
pub proof fn law_v4_text_is_four_numbers_with_dots(s: Seq<char>, o: Seq<u8>)
    ensures
        v4_of(s) == Some(o) <==> o.len() == 4 && s == join(o.map_values(|b: u8| decimal(b as nat)), '.'),
        v4_of(s) == Some(o) ==> ip_of(s) == Some(IpView::V4(o)),
{
    if v4_of(s) == Some(o) {
        law_join_undoes_split(s, '.');
        lemma_octets_are_decimal(split(s, '.'));
    }
    if o.len() == 4 && s == dotted(o) {
        law_dotted_address_is_read_back(o);
    }
}

/// A text that is an IPv4 address is local exactly if its number lies in one of the five networks.
pub proof fn law_local_v4_texts(o: Seq<u8>)
    requires
        o.len() == 4,
    ensures
        ({
            let n = v4_number(o);
            is_lan(join(o.map_values(|b: u8| decimal(b as nat)), '.')) <==> {
                ||| in_v4_network(n, v4_number(seq![10u8, 0u8, 0u8, 0u8]), 8)
                ||| in_v4_network(n, v4_number(seq![172u8, 16u8, 0u8, 0u8]), 12)
                ||| in_v4_network(n, v4_number(seq![192u8, 168u8, 0u8, 0u8]), 16)
                ||| in_v4_network(n, v4_number(seq![127u8, 0u8, 0u8, 0u8]), 8)
                ||| in_v4_network(n, v4_number(seq![169u8, 254u8, 0u8, 0u8]), 16)
            }
        }),
{
    law_dotted_address_is_read_back(o);
    law_local_v4_networks(o);
}

/// A text that is no address is not local, and one that is an address is local exactly if the address is.
pub proof fn law_only_addresses_are_local(s: Seq<char>)
    ensures
        ip_of(s) is None ==> !is_lan(s),
        ip_of(s) matches Some(a) ==> is_lan(s) == on_local_network(a),
        ip_of(s) matches Some(a) ==> match a {
            IpView::V4(o) => v4_of(s) == Some(o),
            IpView::V6(g) => v6_of(s) == Some(g) && v4_of(s) is None,
        },
        v4_of(s) is None && v6_of(s) is None ==> ip_of(s) is None,
{
}

/// The value of a hexadecimal digit, in capital or small letters.
pub proof fn law_hexadecimal_digits(c: char, d: int)
    requires
        0 <= d < 16,
    ensures
        is_hex(c) <==> "0123456789abcdefABCDEF"@.contains(c),
        c == "0123456789abcdef"@[d] || c == "0123456789ABCDEF"@[d] ==> hex_digit(c) == d,
        is_hex(c) && hex_digit(c) == d ==> c == "0123456789abcdef"@[d] || c == "0123456789ABCDEF"@[d],
{
    reveal_strlit("0123456789abcdef");
    reveal_strlit("0123456789ABCDEF");
    reveal_strlit("0123456789abcdefABCDEF");
    let small = "0123456789abcdef"@;
    let big = "0123456789ABCDEF"@;
    let all = "0123456789abcdefABCDEF"@;
    assert(small.len() == 16 && big.len() == 16 && all.len() == 22);
    assert forall|k: int| 0 <= k < 16 implies hex_digit(#[trigger] small[k]) == k && hex_digit(big[k]) == k && is_hex(
        small[k],
    ) && is_hex(big[k]) && all[k] == small[k] by {}
    assert forall|k: int| 16 <= k < 22 implies #[trigger] all[k] == big[k - 6] by {}
    if is_hex(c) {
        let v = hex_digit(c) as int;
        assert(small[v] == c || big[v] == c);
        if small[v] == c {
            assert(all[v] == c);
        } else {
            assert(v >= 10);
            assert(all[v + 6] == c);
        }
    }
    if all.contains(c) {
        let k = choose|k: int| 0 <= k < all.len() && all[k] == c;
        if k < 16 {
            assert(small[k] == c);
        } else {
            assert(big[k - 6] == c);
        }
    }
}

/// A group of an IPv6 address is one to four hexadecimal digits, each of which counts sixteen times the
/// next; no other text is a group.
pub proof fn law_group_is_one_to_four_hexadecimal_digits(s: Seq<char>)
    ensures
        group_of(s) is Some <==> 1 <= s.len() <= 4 && (forall|k: int|
            0 <= k < s.len() ==> "0123456789abcdefABCDEF"@.contains(#[trigger] s[k])),
        group_of(s) matches Some(g) ==> {
            &&& s.len() == 1 ==> g == hex_digit(s[0])
            &&& s.len() == 2 ==> g == hex_digit(s[0]) * 16 + hex_digit(s[1])
            &&& s.len() == 3 ==> g == hex_digit(s[0]) * 256 + hex_digit(s[1]) * 16 + hex_digit(s[2])
            &&& s.len() == 4 ==> g == hex_digit(s[0]) * 4096 + hex_digit(s[1]) * 256 + hex_digit(s[2]) * 16
                + hex_digit(s[3])
        },
{
    assert forall|k: int| 0 <= k < s.len() implies is_hex(#[trigger] s[k])
        == "0123456789abcdefABCDEF"@.contains(s[k]) by {
        law_hexadecimal_digits(s[k], 0);
    }
    if group_of(s) is Some {
        reveal_with_fuel(hex_value, 5);
        let a = s.drop_last();
        let b = a.drop_last();
        let c = b.drop_last();
        assert(is_hex(s[0]) && is_hex(s[s.len() - 1]));
        if s.len() > 1 {
            assert(is_hex(s[1]));
        }
        if s.len() > 2 {
            assert(is_hex(s[2]));
        }
        assert(hex_value(s) <= 0xFFFF);
    }
}

/// Texts of groups that are read as `groups`.
pub open spec fn spell(texts: Seq<Seq<char>>, groups: Seq<u16>) -> bool {
    &&& texts.len() == groups.len()
    &&& forall|k: int| 0 <= k < texts.len() ==> group_of(#[trigger] texts[k]) == Some(groups[k])
}

proof fn lemma_spelled(texts: Seq<Seq<char>>, groups: Seq<u16>)
    requires
        spell(texts, groups),
    ensures
        groups_of(texts) == Some(groups),
    decreases texts.len(),
{
    if texts.len() > 0 {
        assert(group_of(texts[texts.len() - 1]) == Some(groups[texts.len() - 1]));
        assert forall|k: int| 0 <= k < texts.len() - 1 implies group_of(#[trigger] texts.drop_last()[k]) == Some(
            groups.drop_last()[k],
        ) by {
            assert(texts.drop_last()[k] == texts[k]);
        }
        lemma_spelled(texts.drop_last(), groups.drop_last());
        assert(groups =~= groups.drop_last().push(groups.last()));
    } else {
        assert(groups =~= Seq::empty());
    }
}

proof fn lemma_group_text(s: Seq<char>)
    requires
        group_of(s) is Some,
    ensures
        s.len() > 0,
        !s.contains(':'),
        !s.contains('.'),
        v4_of(s) is None,
{
    assert forall|k: int| 0 <= k < s.len() implies s[k] != ':' && s[k] != '.' by {
        assert(is_hex(s[k]));
    }
    crate::text::lemma_split_of_one_piece(s, '.');
}

/// The groups with colons between them are read as one side of an address.
proof fn lemma_side(texts: Seq<Seq<char>>, groups: Seq<u16>, at_end: bool)
    requires
        spell(texts, groups),
    ensures
        side_of(join(texts, ':'), at_end) == Some(groups),
        join(texts, ':').len() == 0 <==> texts.len() == 0,
        texts.len() > 0 ==> join(texts, ':')[0] != ':' && join(texts, ':').last() != ':',
        forall|k: int| 0 <= k && k + 1 < join(texts, ':').len() ==> !(#[trigger] join(texts, ':')[k] == ':' && join(
            texts,
            ':',
        )[k + 1] == ':'),
{
    lemma_spelled(texts, groups);
    lemma_no_double_colon(texts);
    if texts.len() > 0 {
        assert forall|k: int| 0 <= k < texts.len() implies !(#[trigger] texts[k]).contains(':') by {
            lemma_group_text(texts[k]);
        }
        law_split_undoes_join(texts, ':');
        lemma_group_text(texts[texts.len() - 1]);
    } else {
        assert(groups =~= Seq::empty());
    }
}

proof fn lemma_no_double_colon(texts: Seq<Seq<char>>)
    requires
        forall|k: int| 0 <= k < texts.len() ==> group_of(#[trigger] texts[k]) is Some,
    ensures
        join(texts, ':').len() == 0 <==> texts.len() == 0,
        texts.len() > 0 ==> join(texts, ':')[0] != ':' && join(texts, ':').last() != ':',
        forall|k: int| 0 <= k && k + 1 < join(texts, ':').len() ==> !(#[trigger] join(texts, ':')[k] == ':' && join(
            texts,
            ':',
        )[k + 1] == ':'),
    decreases texts.len(),
{
    if texts.len() > 0 {
        let rest = texts.drop_last();
        let last = texts[texts.len() - 1];
        assert forall|k: int| 0 <= k < rest.len() implies group_of(#[trigger] rest[k]) is Some by {
            assert(rest[k] == texts[k]);
        }
        lemma_no_double_colon(rest);
        lemma_group_text(last);
        assert forall|k: int| 0 <= k < last.len() implies last[k] != ':' by {
            assert(last.contains(last[k]));
        }
        let all = join(texts, ':');
        let before = join(rest, ':');
        if texts.len() > 1 {
            assert(all =~= before.push(':') + last);
            assert forall|k: int| 0 <= k && k + 1 < all.len() implies !(#[trigger] all[k] == ':' && all[k + 1]
                == ':') by {
                if k + 1 < before.len() {
                    assert(all[k] == before[k] && all[k + 1] == before[k + 1]);
                } else if k + 1 == before.len() {
                    assert(all[k] == before.last());
                } else if k == before.len() {
                    assert(all[k + 1] == last[0]);
                } else {
                    assert(all[k] == last[k - before.len() - 1]);
                }
            }
        }
    }
}

proof fn lemma_double_colon_at(s: Seq<char>, from: int, at: int)
    requires
        0 <= from <= at,
        at + 1 < s.len() ==> s[at] == ':' && s[at + 1] == ':',
        at == s.len() || at + 1 < s.len(),
        forall|k: int| from <= k < at && k + 1 < s.len() ==> !(#[trigger] s[k] == ':' && s[k + 1] == ':'),
    ensures
        double_colon(s, from) == at,
    decreases at - from,
{
    if from < at {
        if from + 1 < s.len() {
            assert(!(s[from] == ':' && s[from + 1] == ':'));
            lemma_double_colon_at(s, from + 1, at);
        }
    }
}

/// Eight groups with colons between them are read, and no other number of groups is.
pub proof fn law_groups_with_colons_are_read(texts: Seq<Seq<char>>, groups: Seq<u16>)
    requires
        spell(texts, groups),
        texts.len() > 0,
    ensures
        groups.len() == 8 ==> v6_of(join(texts, ':')) == Some(groups),
        groups.len() != 8 ==> v6_of(join(texts, ':')) is None,
{
    let s = join(texts, ':');
    lemma_side(texts, groups, true);
    lemma_double_colon_at(s, 0, s.len() as int);
}

/// Two colons stand for a run of zero groups, of one at least, that fills the address up to eight groups.
pub proof fn law_two_colons_stand_for_zeros(
    left: Seq<Seq<char>>,
    left_groups: Seq<u16>,
    right: Seq<Seq<char>>,
    right_groups: Seq<u16>,
)
    requires
        spell(left, left_groups),
        spell(right, right_groups),
    ensures
        ({
            let s = join(left, ':') + seq![':', ':'] + join(right, ':');
            let n = left_groups.len() + right_groups.len();
            &&& n > 7 ==> v6_of(s) is None
            &&& n <= 7 ==> {
                &&& v6_of(s) matches Some(g)
                &&& g.len() == 8
                &&& g.take(left_groups.len() as int) == left_groups
                &&& g.skip(8 - right_groups.len()) == right_groups
                &&& forall|k: int| left_groups.len() <= k < 8 - right_groups.len() ==> g[k] == 0
            }
        }),
{
    let a = join(left, ':');
    let b = join(right, ':');
    let s = a + seq![':', ':'] + b;
    lemma_side(left, left_groups, false);
    lemma_side(right, right_groups, true);
    let at = a.len() as int;
    assert(s[at] == ':' && s[at + 1] == ':');
    assert forall|k: int| 0 <= k < at && k + 1 < s.len() implies !(#[trigger] s[k] == ':' && s[k + 1] == ':') by {
        assert(s[k] == a[k]);
        if k + 1 < at {
            assert(s[k + 1] == a[k + 1]);
        } else {
            assert(a[k] == a.last());
        }
    }
    lemma_double_colon_at(s, 0, at);
    assert(s.take(at) =~= a);
    assert(s.skip(at + 2) =~= b);
    if left_groups.len() + right_groups.len() <= 7 {
        let g = v6_of(s)->0;
        assert(g.take(left_groups.len() as int) =~= left_groups);
        assert(g.skip(8 - right_groups.len()) =~= right_groups);
    }
}

/// The last two groups may be written as an IPv4 address, whose four bytes they hold.
pub proof fn law_address_may_end_with_four_numbers(texts: Seq<Seq<char>>, groups: Seq<u16>, o: Seq<u8>)
    requires
        spell(texts, groups),
        texts.len() == 6,
        o.len() == 4,
    ensures
        v6_of(join(texts.push(join(o.map_values(|b: u8| decimal(b as nat)), '.')), ':')) == Some(
            groups.push((o[0] * 256 + o[1]) as u16).push((o[2] * 256 + o[3]) as u16),
        ),
{
    let tail = dotted(o);
    let all = texts.push(tail);
    let s = join(all, ':');
    law_dotted_address_is_read_back(o);
    lemma_spelled(texts, groups);
    lemma_no_double_colon(texts);
    lemma_dotted_holds_no_colon(o);
    assert forall|k: int| 0 <= k < all.len() implies !(#[trigger] all[k]).contains(':') by {
        if k < texts.len() {
            assert(all[k] == texts[k]);
            lemma_group_text(texts[k]);
        }
    }
    law_split_undoes_join(all, ':');
    assert(all.drop_last() =~= texts);
    let before = join(texts, ':');
    assert(s =~= before.push(':') + tail);
    assert forall|k: int| 0 <= k < s.len() && k + 1 < s.len() implies !(#[trigger] s[k] == ':' && s[k + 1] == ':') by {
        if k + 1 < before.len() {
            assert(s[k] == before[k] && s[k + 1] == before[k + 1]);
        } else if k + 1 == before.len() {
            assert(s[k] == before.last());
        } else if k == before.len() {
            assert(s[k + 1] == tail[0]);
            assert(tail.contains(tail[0]));
        } else {
            assert(s[k] == tail[k - before.len() - 1]);
            assert(tail.contains(tail[k - before.len() - 1]));
        }
    }
    lemma_double_colon_at(s, 0, s.len() as int);
    assert(groups + v4_groups(o) =~= groups.push((o[0] * 256 + o[1]) as u16).push((o[2] * 256 + o[3]) as u16));
}

proof fn lemma_dotted_holds_no_colon(o: Seq<u8>)
    ensures
        !dotted(o).contains(':'),
{
    let texts = o.map_values(|b: u8| decimal(b as nat));
    assert forall|k: int| 0 <= k < texts.len() implies !(#[trigger] texts[k]).contains(':') by {
        lemma_decimal(o[k] as nat);
        assert forall|i: int| 0 <= i < texts[k].len() implies texts[k][i] != ':' by {
            assert(is_digit(texts[k][i]));
        }
    }
    crate::text::lemma_join_holds_no_more(texts, '.', ':');
}

/// What is read as an IPv6 address has eight groups.
pub proof fn law_v6_address_has_eight_groups(s: Seq<char>)
    ensures
        v6_of(s) matches Some(g) ==> g.len() == 8,
{
}

proof fn lemma_groups_hold_hex_digits_only(pieces: Seq<Seq<char>>, c: char)
    requires
        groups_of(pieces) is Some,
        !is_hex(c),
    ensures
        forall|k: int| 0 <= k < pieces.len() ==> !(#[trigger] pieces[k]).contains(c),
    decreases pieces.len(),
{
    if pieces.len() > 0 {
        lemma_groups_hold_hex_digits_only(pieces.drop_last(), c);
        let last = pieces.last();
        assert(group_of(last) is Some);
        assert forall|k: int| 0 <= k < pieces.len() implies !(#[trigger] pieces[k]).contains(c) by {
            if k < pieces.len() - 1 {
                assert(pieces.drop_last()[k] == pieces[k]);
            } else if last.contains(c) {
                let i = choose|i: int| 0 <= i < last.len() && last[i] == c;
                assert(is_hex(last[i]));
            }
        }
    }
}

proof fn lemma_v4_holds_digits_and_dots_only(s: Seq<char>, c: char)
    requires
        v4_of(s) is Some,
        !is_digit(c),
        c != '.',
    ensures
        !s.contains(c),
{
    let o = v4_of(s)->0;
    law_v4_text_is_four_numbers_with_dots(s, o);
    let texts = o.map_values(|b: u8| decimal(b as nat));
    assert forall|k: int| 0 <= k < texts.len() implies !(#[trigger] texts[k]).contains(c) by {
        lemma_decimal(o[k] as nat);
        assert forall|i: int| 0 <= i < texts[k].len() implies texts[k][i] != c by {
            assert(is_digit(texts[k][i]));
        }
    }
    crate::text::lemma_join_holds_no_more(texts, '.', c);
}

proof fn lemma_side_holds_no_more(s: Seq<char>, at_end: bool, c: char)
    requires
        side_of(s, at_end) is Some,
        !is_hex(c),
        c != ':',
        c != '.',
    ensures
        !s.contains(c),
{
    if s.len() > 0 {
        let pieces = split(s, ':');
        law_join_undoes_split(s, ':');
        assert forall|k: int| 0 <= k < pieces.len() implies !(#[trigger] pieces[k]).contains(c) by {
            if at_end && v4_of(pieces.last()) is Some {
                lemma_groups_hold_hex_digits_only(pieces.drop_last(), c);
                lemma_v4_holds_digits_and_dots_only(pieces.last(), c);
                if k < pieces.len() - 1 {
                    assert(pieces.drop_last()[k] == pieces[k]);
                }
            } else {
                lemma_groups_hold_hex_digits_only(pieces, c);
            }
        }
        crate::text::lemma_join_holds_no_more(pieces, ':', c);
    }
}

/// An address is written with hexadecimal digits, colons and dots only.
pub proof fn law_address_holds_digits_colons_and_dots_only(s: Seq<char>, c: char)
    requires
        ip_of(s) is Some,
        !"0123456789abcdefABCDEF:."@.contains(c),
    ensures
        !s.contains(c),
{
    reveal_strlit("0123456789abcdefABCDEF:.");
    reveal_strlit("0123456789abcdefABCDEF");
    let all = "0123456789abcdefABCDEF:."@;
    assert(all[22] == ':' && all[23] == '.');
    assert forall|k: int| 0 <= k < 22 implies #[trigger] all[k] == "0123456789abcdefABCDEF"@[k] by {}
    law_hexadecimal_digits(c, 0);
    if is_hex(c) {
        let k = choose|k: int| 0 <= k < 22 && "0123456789abcdefABCDEF"@[k] == c;
        assert(all[k] == c);
    }
    if v4_of(s) is Some {
        lemma_v4_holds_digits_and_dots_only(s, c);
    } else {
        let i = double_colon(s, 0);
        if i == s.len() {
            lemma_side_holds_no_more(s, true, c);
        } else {
            lemma_side_holds_no_more(s.take(i), false, c);
            lemma_side_holds_no_more(s.skip(i + 2), true, c);
            lemma_double_colon_is_there(s, 0);
            assert forall|k: int| 0 <= k < s.len() implies s[k] != c by {
                if k < i {
                    assert(s.take(i).contains(s.take(i)[k]));
                } else if k >= i + 2 {
                    assert(s.skip(i + 2).contains(s.skip(i + 2)[k - i - 2]));
                }
            }
        }
    }
}

proof fn lemma_double_colon_is_there(s: Seq<char>, from: int)
    requires
        0 <= from,
    ensures
        double_colon(s, from) == s.len() || (from <= double_colon(s, from) && double_colon(s, from) + 1 < s.len()
            && s[double_colon(s, from)] == ':' && s[double_colon(s, from) + 1] == ':'),
    decreases s.len() - from,
{
    if from + 1 < s.len() && !(s[from] == ':' && s[from + 1] == ':') {
        lemma_double_colon_is_there(s, from + 1);
    }
}

} // verus!
