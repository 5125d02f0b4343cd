//! IP addresses in text: the dotted IPv4 form and the colon-separated IPv6 form.

use crate::text;
use vstd::prelude::*;

verus! {

/// The value of a decimal digit.
pub open spec fn digit_value(c: char) -> nat {
    (c as int - '0' as int) as nat
}

/// The number that decimal digits write.
pub open spec fn decimal_value(s: Seq<char>) -> nat
    decreases s.len(),
{
    if s.len() == 0 {
        0
    } else {
        10 * decimal_value(s.drop_last()) + digit_value(s.last())
    }
}

/// One to three decimal digits, without a leading zero, that write a number up to 255.
pub open spec fn is_octet(s: Seq<char>) -> bool {
    &&& 1 <= s.len() <= 3
    &&& forall|i: int| 0 <= i < s.len() ==> '0' <= #[trigger] s[i] <= '9'
    &&& s.len() > 1 ==> s[0] != '0'
    &&& decimal_value(s) <= 255
}

/// The four octets that an IPv4 address writes.
pub open spec fn ipv4_octets(s: Seq<char>) -> Option<Seq<nat>> {
    let parts = text::split_on(s, '.');
    if parts.len() == 4 && forall|i: int| 0 <= i < 4 ==> is_octet(#[trigger] parts[i]) {
        Some(Seq::new(4, |i: int| decimal_value(parts[i])))
    } else {
        None
    }
}

/// `0` to `9`, `a` to `f` and `A` to `F`.
pub open spec fn is_hex_digit(c: char) -> bool {
    ('0' <= c <= '9') || ('a' <= c <= 'f') || ('A' <= c <= 'F')
}

/// The value of a hexadecimal digit.
pub open spec fn hex_digit_value(c: char) -> nat {
    if '0' <= c <= '9' {
        (c as int - '0' as int) as nat
    } else if 'a' <= c <= 'f' {
        (c as int - 'a' as int + 10) as nat
    } else {
        (c as int - 'A' as int + 10) as nat
    }
}

/// The number that hexadecimal digits write.
pub open spec fn hex_value(s: Seq<char>) -> nat
    decreases s.len(),
{
    if s.len() == 0 {
        0
    } else {
        16 * hex_value(s.drop_last()) + hex_digit_value(s.last())
    }
}

/// One to four hexadecimal digits.
pub open spec fn is_hex_group(s: Seq<char>) -> bool {
    &&& 1 <= s.len() <= 4
    &&& forall|i: int| 0 <= i < s.len() ==> is_hex_digit(#[trigger] s[i])
}

/// The 16-bit groups that colon-separated text writes: hexadecimal groups, of which the last may
/// be an IPv4 address in place of two groups where `dotted` allows it. An empty text writes none.
pub open spec fn groups(s: Seq<char>, dotted: bool) -> Option<Seq<nat>> {
    let parts = text::split_on(s, ':');
    let last = parts.last();
    let leading = Seq::new((parts.len() - 1) as nat, |i: int| hex_value(parts[i]));
    if s.len() == 0 {
        Some(Seq::empty())
    } else if exists|i: int| 0 <= i < parts.len() - 1 && !is_hex_group(#[trigger] parts[i]) {
        None
    } else if is_hex_group(last) {
        Some(leading.push(hex_value(last)))
    } else {
        match ipv4_octets(last) {
            Some(o) if dotted => Some(
                leading.push(256 * o[0] + o[1]).push(256 * o[2] + o[3]),
            ),
            _ => None,
        }
    }
}

/// The eight 16-bit groups that an IPv6 address writes. One `::` may stand for one or more groups
/// of zero.
pub open spec fn ipv6_groups(s: Seq<char>) -> Option<Seq<nat>> {
    match text::find(s, seq![':', ':']) {
        None => match groups(s, true) {
            Some(all) if all.len() == 8 => Some(all),
            _ => None,
        },
        Some(k) => match (groups(s.take(k), false), groups(s.skip(k + 2), true)) {
            (Some(head), Some(tail)) if head.len() + tail.len() <= 7 => Some(
                head + Seq::new((8 - head.len() - tail.len()) as nat, |i: int| 0nat) + tail,
            ),
            _ => None,
        },
    }
}

/// Whether the text writes a loopback address: one of 127.0.0.0/8, or the IPv6 address ::1.
pub open spec fn is_loopback(s: Seq<char>) -> bool {
    match ipv4_octets(s) {
        Some(octets) => octets[0] == 127,
        None => ipv6_groups(s) == Some(seq![0nat, 0, 0, 0, 0, 0, 0, 1]),
    }
}

/// A list of machine numbers as mathematical ones.
pub open spec fn numbers(v: Seq<u16>) -> Seq<nat> {
    Seq::new(v.len(), |i: int| v[i] as nat)
}

/// What an optional list of machine numbers stands for.
pub open spec fn optional_numbers(v: Option<Vec<u16>>) -> Option<Seq<nat>> {
    match v {
        Some(v) => Some(numbers(v@)),
        None => None,
    }
}

/// Reads an octet.
pub fn read_octet(s: &[char]) -> (r: Option<u16>)
    ensures
        match r {
            Some(n) => is_octet(s@) && n == decimal_value(s@),
            None => !is_octet(s@),
        },
{
    if s.len() == 0 || s.len() > 3 || (s.len() > 1 && s[0] == '0') {
        return None;
    }
    let mut n: u16 = 0;
    for i in 0..s.len()
        invariant
            s.len() <= 3,
            n == decimal_value(s@.take(i as int)),
            i == 0 ==> n == 0,
            i == 1 ==> n <= 9,
            i == 2 ==> n <= 99,
            i == 3 ==> n <= 999,
            forall|j: int| 0 <= j < i ==> '0' <= #[trigger] s@[j] <= '9',
    {
        let c = s[i];
        if !('0' <= c && c <= '9') {
            return None;
        }
        let ghost taken = s@.take(i + 1);
        assert(taken.drop_last() == s@.take(i as int));
        assert(taken.last() == c);
        n = 10 * n + (c as u16 - '0' as u16);
    }
    assert(s@.take(s@.len() as int) == s@);
    if n <= 255 {
        Some(n)
    } else {
        None
    }
}

/// Reads an IPv4 address.
pub fn read_ipv4(s: &[char]) -> (r: Option<Vec<u16>>)
    ensures
        optional_numbers(r) == ipv4_octets(s@),
        r matches Some(octets) ==> octets.len() == 4 && forall|i: int|
            0 <= i < 4 ==> #[trigger] octets@[i] <= 255,
{
    let parts = text::split(s, '.');
    let ghost texts = text::rows(parts@);
    if parts.len() != 4 {
        return None;
    }
    let mut octets: Vec<u16> = Vec::new();
    for i in 0..4usize
        invariant
            parts.len() == 4,
            texts == text::rows(parts@),
            texts == text::split_on(s@, '.'),
            octets.len() == i,
            forall|j: int| 0 <= j < i ==> is_octet(#[trigger] texts[j]),
            forall|j: int| 0 <= j < i ==> #[trigger] octets@[j] == decimal_value(texts[j]),
    {
        assert(texts[i as int] == parts@[i as int]@);
        match read_octet(parts[i].as_slice()) {
            Some(n) => octets.push(n),
            None => return None,
        }
    }
    assert(numbers(octets@) =~= Seq::new(4, |i: int| decimal_value(texts[i])));
    Some(octets)
}

/// Reads a hexadecimal group.
pub fn read_hex_group(s: &[char]) -> (r: Option<u16>)
    ensures
        match r {
            Some(n) => is_hex_group(s@) && n == hex_value(s@),
            None => !is_hex_group(s@),
        },
{
    if s.len() == 0 || s.len() > 4 {
        return None;
    }
    let mut n: u32 = 0;
    for i in 0..s.len()
        invariant
            s.len() <= 4,
            n == hex_value(s@.take(i as int)),
            i == 0 ==> n == 0,
            i == 1 ==> n <= 0xf,
            i == 2 ==> n <= 0xff,
            i == 3 ==> n <= 0xfff,
            i == 4 ==> n <= 0xffff,
            forall|j: int| 0 <= j < i ==> is_hex_digit(#[trigger] s@[j]),
    {
        let c = s[i];
        let d: u32 = if '0' <= c && c <= '9' {
            c as u32 - '0' as u32
        } else if 'a' <= c && c <= 'f' {
            c as u32 - 'a' as u32 + 10
        } else if 'A' <= c && c <= 'F' {
            c as u32 - 'A' as u32 + 10
        } else {
            assert(!is_hex_digit(s@[i as int]));
            return None;
        };
        let ghost taken = s@.take(i + 1);
        assert(taken.drop_last() == s@.take(i as int));
        assert(taken.last() == c);
        n = 16 * n + d;
    }
    assert(s@.take(s@.len() as int) == s@);
    Some(n as u16)
}

/// Reads colon-separated groups, of which the last may be an IPv4 address where `dotted` allows
/// it.
pub fn read_groups(s: &[char], dotted: bool) -> (r: Option<Vec<u16>>)
    ensures
        optional_numbers(r) == groups(s@, dotted),
{
    let mut read: Vec<u16> = Vec::new();
    if s.len() == 0 {
        assert(numbers(read@) =~= Seq::<nat>::empty());
        return Some(read);
    }
    let parts = text::split(s, ':');
    let ghost texts = text::rows(parts@);
    let last = parts.len() - 1;
    let ghost leading = Seq::new((texts.len() - 1) as nat, |i: int| hex_value(texts[i]));
    for i in 0..last
        invariant
            s.len() > 0,
            last == parts.len() - 1,
            texts == text::rows(parts@),
            texts == text::split_on(s@, ':'),
            read.len() == i,
            forall|j: int| 0 <= j < i ==> is_hex_group(#[trigger] texts[j]),
            forall|j: int| 0 <= j < i ==> #[trigger] read@[j] == hex_value(texts[j]),
    {
        assert(texts[i as int] == parts@[i as int]@);
        match read_hex_group(parts[i].as_slice()) {
            Some(n) => read.push(n),
            None => {
                assert(!is_hex_group(texts[i as int]));
                return None;
            },
        }
    }
    assert(numbers(read@) =~= leading);
    assert(texts.last() == parts@[last as int]@);
    match read_hex_group(parts[last].as_slice()) {
        Some(n) => {
            read.push(n);
            assert(numbers(read@) =~= leading.push(n as nat));
            Some(read)
        },
        None => {
            if !dotted {
                return None;
            }
            match read_ipv4(parts[last].as_slice()) {
                Some(octets) => {
                    assert(octets@[0] <= 255 && octets@[1] <= 255 && octets@[2] <= 255
                        && octets@[3] <= 255);
                    let high = 256 * octets[0] + octets[1];
                    let low = 256 * octets[2] + octets[3];
                    read.push(high);
                    read.push(low);
                    assert(numbers(read@) =~= leading.push(high as nat).push(low as nat));
                    let ghost o = ipv4_octets(texts.last()).unwrap();
                    assert(o == numbers(octets@));
                    assert(high == 256 * o[0] + o[1] && low == 256 * o[2] + o[3]);
                    Some(read)
                },
                None => None,
            }
        },
    }
}

/// Reads an IPv6 address.
pub fn read_ipv6(s: &[char]) -> (r: Option<Vec<u16>>)
    ensures
        optional_numbers(r) == ipv6_groups(s@),
{
    let colons: Vec<char> = vec![':', ':'];
    assert(colons@ == seq![':', ':']);
    match text::position_of(s, colons.as_slice()) {
        None => match read_groups(s, true) {
            Some(all) => if all.len() == 8 {
                Some(all)
            } else {
                None
            },
            None => None,
        },
        Some(k) => {
            proof {
                text::lemma_find_in_range(s@, colons@);
            }
            assert(text::occurs_at(s@, colons@, k as int));
            assert(k + 2 <= s.len());
            let before = vstd::slice::slice_subrange(s, 0, k);
            let after = vstd::slice::slice_subrange(s, k + 2, s.len());
            assert(before@ == s@.take(k as int));
            assert(after@ == s@.skip(k + 2));
            match (read_groups(before, false), read_groups(after, true)) {
                (Some(head), Some(tail)) => {
                    if head.len() > 7 || tail.len() > 7 - head.len() {
                        return None;
                    }
                    let ghost zeros = Seq::new(
                        (8 - head@.len() - tail@.len()) as nat,
                        |i: int| 0nat,
                    );
                    let mut all: Vec<u16> = Vec::new();
                    for i in 0..head.len()
                        invariant
                            all@ == head@.take(i as int),
                    {
                        all.push(head[i]);
                        assert(head@.take(i + 1) == head@.take(i as int).push(head@[i as int]));
                    }
                    let gap = 8 - head.len() - tail.len();
                    for i in 0..gap
                        invariant
                            all.len() == head.len() + i,
                            forall|j: int| 0 <= j < head.len() ==> #[trigger] all@[j] == head@[j],
                            forall|j: int| head.len() <= j < all.len() ==> #[trigger] all@[j] == 0,
                    {
                        all.push(0);
                    }
                    for i in 0..tail.len()
                        invariant
                            all.len() == head.len() + gap + i,
                            forall|j: int| 0 <= j < head.len() ==> #[trigger] all@[j] == head@[j],
                            forall|j: int|
                                head.len() <= j < head.len() + gap ==> #[trigger] all@[j] == 0,
                            forall|j: int|
                                head.len() + gap <= j < all.len() ==> #[trigger] all@[j] == tail@[j
                                    - head.len() - gap],
                    {
                        all.push(tail[i]);
                    }
                    assert(numbers(all@) =~= numbers(head@) + zeros + numbers(tail@));
                    Some(all)
                },
                _ => None,
            }
        },
    }
}

/// Whether the text writes a loopback address.
pub fn writes_loopback(s: &[char]) -> (r: bool)
    ensures
        r == is_loopback(s@),
{
    match read_ipv4(s) {
        Some(octets) => {
            assert(numbers(octets@)[0] == octets@[0]);
            octets[0] == 127
        },
        None => match read_ipv6(s) {
            Some(all) => {
                let is_one = all.len() == 8 && all[0] == 0 && all[1] == 0 && all[2] == 0 && all[3]
                    == 0 && all[4] == 0 && all[5] == 0 && all[6] == 0 && all[7] == 1;
                proof {
                    let one = seq![0nat, 0, 0, 0, 0, 0, 0, 1];
                    let written = numbers(all@);
                    if is_one {
                        assert(written =~= one);
                    }
                    if written == one {
                        assert(written.len() == 8);
                        assert(written[0] == 0 && written[1] == 0 && written[2] == 0 && written[3]
                            == 0 && written[4] == 0 && written[5] == 0 && written[6] == 0
                            && written[7] == 1);
                    }
                }
                is_one
            },
            None => false,
        },
    }
}

/// The characters in which addresses are written.
pub open spec fn is_address_char(c: char) -> bool {
    is_hex_digit(c) || c == ':' || c == '.'
}

proof fn lemma_ipv4_alphabet(s: Seq<char>, i: int)
    requires
        ipv4_octets(s) is Some,
        0 <= i < s.len(),
    ensures
        is_address_char(s[i]),
{
    if s[i] != '.' {
        let parts = text::split_on(s, '.');
        let k = text::lemma_split_covers(s, '.', i);
        assert(is_octet(parts[k]));
        let at = choose|at: int| 0 <= at < parts[k].len() && parts[k][at] == s[i];
        assert('0' <= parts[k][at] <= '9');
    }
}

proof fn lemma_groups_alphabet(s: Seq<char>, dotted: bool, i: int)
    requires
        groups(s, dotted) is Some,
        0 <= i < s.len(),
    ensures
        is_address_char(s[i]),
{
    if s[i] != ':' {
        let parts = text::split_on(s, ':');
        let k = text::lemma_split_covers(s, ':', i);
        let at = choose|at: int| 0 <= at < parts[k].len() && parts[k][at] == s[i];
        if is_hex_group(parts[k]) {
            assert(is_hex_digit(parts[k][at]));
        } else {
            assert(k == parts.len() - 1);
            lemma_ipv4_alphabet(parts[k], at);
        }
    }
}

/// A loopback address is written in hexadecimal digits, colons and dots alone.
pub proof fn law_loopback_alphabet(s: Seq<char>, i: int)
    requires
        is_loopback(s),
        0 <= i < s.len(),
    ensures
        is_address_char(s[i]),
{
    if ipv4_octets(s) is Some {
        lemma_ipv4_alphabet(s, i);
    } else {
        let colons = seq![':', ':'];
        text::lemma_find_in_range(s, colons);
        match text::find(s, colons) {
            None => lemma_groups_alphabet(s, true, i),
            Some(k) => {
                assert(text::occurs_at(s, colons, k));
                if i < k {
                    assert(s.take(k)[i] == s[i]);
                    lemma_groups_alphabet(s.take(k), false, i);
                } else if i < k + 2 {
                    assert(s.subrange(k, k + 2)[i - k] == s[i]);
                } else {
                    assert(s.skip(k + 2)[i - k - 2] == s[i]);
                    lemma_groups_alphabet(s.skip(k + 2), true, i - k - 2);
                }
            },
        }
    }
}

proof fn lemma_octet_has_no_dot(s: Seq<char>)
    requires
        is_octet(s),
    ensures
        text::split_on(s, '.') == seq![s],
{
    assert forall|i: int| 0 <= i < s.len() implies s[i] != '.' by {
        assert('0' <= s[i] <= '9');
    }
    text::lemma_split_single(s, '.');
}

/// Four octets with dots between them are an address of these octets, which is loopback if and
/// only if the first octet is 127.
pub proof fn law_dotted_octets(a: Seq<char>, b: Seq<char>, c: Seq<char>, d: Seq<char>)
    requires
        is_octet(a),
        is_octet(b),
        is_octet(c),
        is_octet(d),
    ensures
        ipv4_octets(a + seq!['.'] + (b + seq!['.'] + (c + seq!['.'] + d))) == Some(
            seq![decimal_value(a), decimal_value(b), decimal_value(c), decimal_value(d)],
        ),
        is_loopback(a + seq!['.'] + (b + seq!['.'] + (c + seq!['.'] + d))) <==> decimal_value(a)
            == 127,
{
    let cd = c + seq!['.'] + d;
    let bcd = b + seq!['.'] + cd;
    let abcd = a + seq!['.'] + bcd;
    lemma_octet_has_no_dot(a);
    lemma_octet_has_no_dot(b);
    lemma_octet_has_no_dot(c);
    lemma_octet_has_no_dot(d);
    text::lemma_split_joined(c, d, '.');
    text::lemma_split_joined(b, cd, '.');
    text::lemma_split_joined(a, bcd, '.');
    let parts = text::split_on(abcd, '.');
    assert(parts =~= seq![a, b, c, d]);
    assert(ipv4_octets(abcd).unwrap() =~= seq![
        decimal_value(a),
        decimal_value(b),
        decimal_value(c),
        decimal_value(d),
    ]);
}

/// The octets of an address, digit by digit: one digit, two of which the first is not zero, or three
/// that start with 1, with 2 and a digit up to 4, or with 25 and a digit up to 5.
pub open spec fn writes_octet(s: Seq<char>) -> bool {
    &&& forall|i: int| 0 <= i < s.len() ==> '0' <= #[trigger] s[i] <= '9'
    &&& {
        ||| s.len() == 1
        ||| s.len() == 2 && s[0] != '0'
        ||| s.len() == 3 && s[0] == '1'
        ||| s.len() == 3 && s[0] == '2' && s[1] <= '4'
        ||| s.len() == 3 && s[0] == '2' && s[1] == '5' && s[2] <= '5'
    }
}

/// Octets are read digit by digit, and 127 is written in one way, as every octet is.
pub proof fn law_octets(s: Seq<char>)
    ensures
        is_octet(s) <==> writes_octet(s),
        is_octet(s) ==> (decimal_value(s) == 127 <==> s == seq!['1', '2', '7']),
        is_octet(s) ==> (decimal_value(s) == 0 <==> s == seq!['0']),
        is_octet(s) ==> (decimal_value(s) == 1 <==> s == seq!['1']),
{
    reveal_with_fuel(decimal_value, 5);
    if 1 <= s.len() <= 3 && forall|i: int| 0 <= i < s.len() ==> '0' <= #[trigger] s[i] <= '9' {
        let a = s[0];
        assert('0' <= a <= '9');
        if s.len() == 1 {
            assert(decimal_value(s) == digit_value(a));
            assert(s =~= seq![a]);
        } else if s.len() == 2 {
            let b = s[1];
            assert('0' <= b <= '9');
            assert(s.drop_last().last() == a);
            assert(decimal_value(s) == 10 * digit_value(a) + digit_value(b));
        } else {
            let b = s[1];
            let c = s[2];
            assert('0' <= b <= '9');
            assert('0' <= c <= '9');
            assert(s.drop_last().last() == b);
            assert(s.drop_last().drop_last().last() == a);
            assert(decimal_value(s) == 100 * digit_value(a) + 10 * digit_value(b) + digit_value(c));
            if decimal_value(s) == 127 {
                assert(s =~= seq!['1', '2', '7']);
            }
        }
    }
}

/// Four octets with dots between them are a loopback address if and only if the first is 127.
pub proof fn law_dotted_loopback(a: Seq<char>, b: Seq<char>, c: Seq<char>, d: Seq<char>)
    requires
        writes_octet(a),
        writes_octet(b),
        writes_octet(c),
        writes_octet(d),
    ensures
        is_loopback(text::joined(seq![a, b, c, d], '.')) <==> a == seq!['1', '2', '7'],
{
    law_octets(a);
    law_octets(b);
    law_octets(c);
    law_octets(d);
    let parts = seq![a, b, c, d];
    lemma_octets_join(parts);
}

proof fn lemma_octets_join(parts: Seq<Seq<char>>)
    requires
        parts.len() == 4,
        forall|i: int| 0 <= i < 4 ==> is_octet(#[trigger] parts[i]),
    ensures
        ipv4_octets(text::joined(parts, '.')) == Some(Seq::new(4, |i: int| decimal_value(parts[i]))),
{
    assert forall|i: int| 0 <= i < parts.len() implies !(#[trigger] parts[i]).contains('.') by {
        assert(is_octet(parts[i]));
        if parts[i].contains('.') {
            let k = choose|k: int| 0 <= k < parts[i].len() && parts[i][k] == '.';
            assert('0' <= parts[i][k] <= '9');
        }
    }
    text::law_splitting_undoes_joining(Seq::empty(), parts, '.');
}

/// Without a colon nothing but 127 and three more octets, with dots between them, is a loopback
/// address.
pub proof fn law_loopback_without_colons(s: Seq<char>)
    requires
        is_loopback(s),
        !s.contains(':'),
    ensures
        exists|parts: Seq<Seq<char>>|
            parts.len() == 4 && parts[0] == seq!['1', '2', '7'] && writes_octet(parts[1])
                && writes_octet(parts[2]) && writes_octet(parts[3]) && s == #[trigger] text::joined(
                parts,
                '.',
            ),
{
    text::law_splitting_undoes_joining(s, Seq::empty(), '.');
    if ipv4_octets(s) is Some {
        let parts = text::split_on(s, '.');
        assert(is_octet(parts[0]) && is_octet(parts[1]) && is_octet(parts[2]) && is_octet(parts[3]));
        law_octets(parts[0]);
        law_octets(parts[1]);
        law_octets(parts[2]);
        law_octets(parts[3]);
        assert(text::joined(parts, '.') == s);
    } else {
        let colons = seq![':', ':'];
        text::lemma_find_in_range(s, colons);
        if let Some(k) = text::find(s, colons) {
            assert(text::occurs_at(s, colons, k));
            assert(s.subrange(k, k + 2)[0] == ':');
            assert(s[k] == ':');
        } else {
            text::lemma_split_single(s, ':');
            let all = groups(s, true).unwrap();
            assert(all.len() <= 2);
        }
    }
}

/// One to four zeros.
pub open spec fn writes_zero_group(g: Seq<char>) -> bool {
    1 <= g.len() <= 4 && forall|i: int| 0 <= i < g.len() ==> #[trigger] g[i] == '0'
}

/// A one after up to three zeros.
pub open spec fn writes_one_group(g: Seq<char>) -> bool {
    1 <= g.len() <= 4 && g.last() == '1' && forall|i: int|
        0 <= i < g.len() - 1 ==> #[trigger] g[i] == '0'
}

/// Parts that write one in `n` groups: zeros, and last a one, or an address with dots in place of two
/// groups.
pub open spec fn write_one(parts: Seq<Seq<char>>, n: int) -> bool {
    &&& parts.len() > 0
    &&& forall|i: int| 0 <= i < parts.len() - 1 ==> writes_zero_group(#[trigger] parts[i])
    &&& {
        ||| n == parts.len() && writes_one_group(parts.last())
        ||| n == parts.len() + 1 && parts.last() == seq!['0', '.', '0', '.', '0', '.', '1']
    }
}

/// A text that writes the IPv6 address one: in full, with eight groups, or with `::` in place of one
/// or more groups of zeros.
pub open spec fn writes_one_address(s: Seq<char>) -> bool {
    ||| exists|parts: Seq<Seq<char>>| write_one(parts, 8) && s == #[trigger] text::joined(parts, ':')
    ||| exists|head: Seq<Seq<char>>, parts: Seq<Seq<char>>, n: int|
        (forall|i: int| 0 <= i < head.len() ==> writes_zero_group(#[trigger] head[i]))
            && #[trigger] write_one(parts, n) && head.len() + n <= 7 && s == #[trigger] text::joined(
            head,
            ':',
        ) + seq![':', ':'] + text::joined(parts, ':')
}

proof fn lemma_hex_groups(g: Seq<char>)
    ensures
        writes_zero_group(g) <==> is_hex_group(g) && hex_value(g) == 0,
        writes_one_group(g) <==> is_hex_group(g) && hex_value(g) == 1,
{
    lemma_hex_zero(g);
    if g.len() > 0 {
        let front = g.drop_last();
        lemma_hex_zero(front);
        if is_hex_group(g) {
            assert(is_hex_digit(g[g.len() - 1]));
            assert forall|i: int| 0 <= i < front.len() implies is_hex_digit(#[trigger] front[i]) by {
                assert(is_hex_digit(g[i]));
            }
            if hex_value(g) == 1 {
                assert(hex_value(front) == 0 && hex_digit_value(g.last()) == 1);
                assert forall|i: int| 0 <= i < g.len() - 1 implies #[trigger] g[i] == '0' by {
                    assert(front[i] == '0');
                }
            }
        }
        if writes_one_group(g) {
            assert forall|i: int| 0 <= i < front.len() implies #[trigger] front[i] == '0' by {
                assert(g[i] == '0');
            }
            assert forall|i: int| 0 <= i < g.len() implies is_hex_digit(#[trigger] g[i]) by {
                if i < g.len() - 1 {
                    assert(g[i] == '0');
                }
            }
        }
    }
}

proof fn lemma_hex_zero(g: Seq<char>)
    ensures
        (forall|i: int| 0 <= i < g.len() ==> #[trigger] g[i] == '0') ==> hex_value(g) == 0 && forall|
            i: int,
        |
            0 <= i < g.len() ==> is_hex_digit(#[trigger] g[i]),
        hex_value(g) == 0 && (forall|i: int| 0 <= i < g.len() ==> is_hex_digit(#[trigger] g[i]))
            ==> forall|i: int| 0 <= i < g.len() ==> #[trigger] g[i] == '0',
    decreases g.len(),
{
    if g.len() > 0 {
        let front = g.drop_last();
        lemma_hex_zero(front);
        let last = g[g.len() - 1];
        if forall|i: int| 0 <= i < g.len() ==> #[trigger] g[i] == '0' {
            assert forall|i: int| 0 <= i < front.len() implies #[trigger] front[i] == '0' by {
                assert(g[i] == '0');
            }
            assert(last == '0');
        }
        if hex_value(g) == 0 && forall|i: int| 0 <= i < g.len() ==> is_hex_digit(#[trigger] g[i]) {
            assert(is_hex_digit(last));
            assert forall|i: int| 0 <= i < front.len() implies is_hex_digit(#[trigger] front[i]) by {
                assert(is_hex_digit(g[i]));
            }
            assert forall|i: int| 0 <= i < g.len() implies #[trigger] g[i] == '0' by {
                if i < front.len() {
                    assert(front[i] == '0');
                }
            }
        }
    }
}

/// The text `0.0.0.1` and what it is read as.
proof fn lemma_dotted_one(s: Seq<char>)
    ensures
        s == seq!['0', '.', '0', '.', '0', '.', '1'] ==> !is_hex_group(s) && !s.contains(':')
            && ipv4_octets(s) == Some(seq![0nat, 0, 0, 1]),
        ipv4_octets(s) == Some(seq![0nat, 0, 0, 1]) ==> s == seq!['0', '.', '0', '.', '0', '.', '1'],
{
    let zero = seq!['0'];
    let one = seq!['1'];
    let parts = seq![zero, zero, zero, one];
    let dotted = seq!['0', '.', '0', '.', '0', '.', '1'];
    reveal_with_fuel(text::joined, 5);
    assert(parts.drop_last() =~= seq![zero, zero, zero]);
    assert(seq![zero, zero, zero].drop_last() =~= seq![zero, zero]);
    assert(seq![zero, zero].drop_last() =~= seq![zero]);
    assert(text::joined(parts, '.') =~= dotted);
    law_octets(zero);
    law_octets(one);
    assert(writes_octet(zero) && writes_octet(one));
    lemma_octets_join(parts);
    assert(Seq::new(4, |i: int| decimal_value(parts[i])) =~= seq![0nat, 0, 0, 1]);
    if s == dotted {
        assert(s[1] == '.');
        assert(!is_hex_digit(s[1]));
        assert forall|i: int| 0 <= i < s.len() implies s[i] != ':' by {}
    }
    if ipv4_octets(s) == Some(seq![0nat, 0, 0, 1]) {
        let read = text::split_on(s, '.');
        let values = ipv4_octets(s).unwrap();
        assert(values =~= Seq::new(4, |i: int| decimal_value(read[i])));
        assert(values[0] == 0 && values[1] == 0 && values[2] == 0 && values[3] == 1);
        assert(is_octet(read[0]) && is_octet(read[1]) && is_octet(read[2]) && is_octet(read[3]));
        law_octets(read[0]);
        law_octets(read[1]);
        law_octets(read[2]);
        law_octets(read[3]);
        assert(read =~= parts);
        text::law_splitting_undoes_joining(s, parts, '.');
    }
}

/// The groups of one, written in `n` groups.
spec fn one_in(n: int) -> Seq<nat> {
    Seq::new(
        n as nat,
        |i: int|
            if i == n - 1 {
                1nat
            } else {
                0nat
            },
    )
}

/// Whether two colons stand at `i`.
spec fn gap_at(s: Seq<char>, i: int) -> bool {
    s[i] == ':' && s[i + 1] == ':'
}

proof fn lemma_joined_has_no_gap(parts: Seq<Seq<char>>)
    requires
        parts.len() > 0,
        forall|i: int|
            0 <= i < parts.len() ==> (#[trigger] parts[i]).len() > 0 && !parts[i].contains(':'),
    ensures
        text::joined(parts, ':').len() > 0,
        text::joined(parts, ':')[0] != ':',
        text::joined(parts, ':').last() != ':',
        forall|i: int|
            0 <= i < text::joined(parts, ':').len() - 1 ==> !#[trigger] gap_at(
                text::joined(parts, ':'),
                i,
            ),
    decreases parts.len(),
{
    let last = parts.last();
    let s = text::joined(parts, ':');
    assert(parts[parts.len() - 1] == last);
    assert(last.contains(last[0]) && last.contains(last[last.len() - 1]));
    assert forall|i: int| 0 <= i < last.len() implies last[i] != ':' by {
        assert(last.contains(last[i]));
    }
    if parts.len() > 1 {
        let earlier = parts.drop_last();
        assert forall|i: int| 0 <= i < earlier.len() implies (#[trigger] earlier[i]).len() > 0
            && !earlier[i].contains(':') by {
            assert(parts[i].len() > 0 && !parts[i].contains(':'));
        }
        lemma_joined_has_no_gap(earlier);
        let front = text::joined(earlier, ':');
        let n = front.len() as int;
        assert(s[0] == front[0]);
        assert(s.last() == last[last.len() - 1]);
        assert forall|i: int| 0 <= i < s.len() - 1 implies !#[trigger] gap_at(s, i) by {
            if i < n - 1 {
                assert(!gap_at(front, i));
                assert(s[i] == front[i] && s[i + 1] == front[i + 1]);
            } else if i == n - 1 {
                assert(s[i] == front[n - 1]);
            } else {
                assert(s[i + 1] == last[i + 1 - n - 1]);
            }
        }
    }
}

proof fn lemma_parts_of_one(parts: Seq<Seq<char>>, n: int)
    requires
        write_one(parts, n),
    ensures
        forall|i: int|
            0 <= i < parts.len() ==> (#[trigger] parts[i]).len() > 0 && !parts[i].contains(':'),
        groups(text::joined(parts, ':'), true) == Some(one_in(n)),
{
    lemma_dotted_one(parts.last());
    assert forall|i: int| 0 <= i < parts.len() implies (#[trigger] parts[i]).len() > 0
        && !parts[i].contains(':') by {
        if i < parts.len() - 1 {
            assert(writes_zero_group(parts[i]));
        }
        if parts[i].contains(':') {
            let k = choose|k: int| 0 <= k < parts[i].len() && parts[i][k] == ':';
            assert(parts[i][k] == ':');
        }
    }
    let s = text::joined(parts, ':');
    lemma_joined_has_no_gap(parts);
    text::law_splitting_undoes_joining(s, parts, ':');
    let last = parts.last();
    let leading = Seq::new((parts.len() - 1) as nat, |i: int| hex_value(parts[i]));
    assert forall|i: int| 0 <= i < parts.len() - 1 implies is_hex_group(#[trigger] parts[i])
        && hex_value(parts[i]) == 0 by {
        assert(writes_zero_group(parts[i]));
        lemma_hex_groups(parts[i]);
    }
    lemma_hex_groups(last);
    if n == parts.len() && writes_one_group(last) {
        assert(leading.push(hex_value(last)) =~= one_in(n));
    } else {
        let o = ipv4_octets(last).unwrap();
        assert(o[0] == 0 && o[1] == 0 && o[2] == 0 && o[3] == 1);
        assert(leading.push(256 * o[0] + o[1]).push(256 * o[2] + o[3]) =~= one_in(n));
    }
}

proof fn lemma_groups_of_zeros(head: Seq<Seq<char>>)
    requires
        forall|i: int| 0 <= i < head.len() ==> writes_zero_group(#[trigger] head[i]),
    ensures
        forall|i: int|
            0 <= i < head.len() ==> (#[trigger] head[i]).len() > 0 && !head[i].contains(':'),
        groups(text::joined(head, ':'), false) == Some(Seq::new(head.len(), |i: int| 0nat)),
{
    assert forall|i: int| 0 <= i < head.len() implies (#[trigger] head[i]).len() > 0
        && !head[i].contains(':') by {
        assert(writes_zero_group(head[i]));
        if head[i].contains(':') {
            let k = choose|k: int| 0 <= k < head[i].len() && head[i][k] == ':';
            assert(head[i][k] == ':');
        }
    }
    let s = text::joined(head, ':');
    if head.len() == 0 {
        assert(Seq::<nat>::empty() =~= Seq::new(head.len(), |i: int| 0nat));
    } else {
        lemma_joined_has_no_gap(head);
        text::law_splitting_undoes_joining(s, head, ':');
        let leading = Seq::new((head.len() - 1) as nat, |i: int| hex_value(head[i]));
        assert forall|i: int| 0 <= i < head.len() implies is_hex_group(#[trigger] head[i])
            && hex_value(head[i]) == 0 by {
            assert(writes_zero_group(head[i]));
            lemma_hex_groups(head[i]);
        }
        assert(head.last() == head[head.len() - 1]);
        assert(leading.push(hex_value(head.last())) =~= Seq::new(head.len(), |i: int| 0nat));
    }
}

proof fn lemma_no_octets_with_colon(s: Seq<char>)
    requires
        s.contains(':'),
    ensures
        ipv4_octets(s) is None,
{
    if ipv4_octets(s) is Some {
        let i = choose|i: int| 0 <= i < s.len() && s[i] == ':';
        let parts = text::split_on(s, '.');
        let k = text::lemma_split_covers(s, '.', i);
        assert(is_octet(parts[k]));
        let at = choose|at: int| 0 <= at < parts[k].len() && parts[k][at] == s[i];
        assert('0' <= parts[k][at] <= '9');
    }
}

proof fn lemma_one_is_loopback(s: Seq<char>)
    requires
        ipv6_groups(s) == Some(one_in(8)),
        ipv4_octets(s) is None,
    ensures
        is_loopback(s),
{
    assert(one_in(8) =~= seq![0nat, 0, 0, 0, 0, 0, 0, 1]);
}

proof fn lemma_full_one(parts: Seq<Seq<char>>)
    requires
        write_one(parts, 8),
    ensures
        is_loopback(text::joined(parts, ':')),
{
    let s = text::joined(parts, ':');
    let colons = seq![':', ':'];
    lemma_parts_of_one(parts, 8);
    lemma_joined_has_no_gap(parts);
    text::lemma_find_in_range(s, colons);
    if let Some(k) = text::find(s, colons) {
        assert(s.subrange(k, k + 2)[0] == ':' && s.subrange(k, k + 2)[1] == ':');
        assert(s[k] == ':' && s[k + 1] == ':');
        assert(gap_at(s, k));
    }
    let front = text::joined(parts.drop_last(), ':');
    assert(s[front.len() as int] == ':');
    assert(s.contains(':'));
    lemma_no_octets_with_colon(s);
    lemma_one_is_loopback(s);
}

proof fn lemma_first_gap(before: Seq<char>, after: Seq<char>)
    requires
        before.len() > 0 ==> before.last() != ':',
        forall|i: int| 0 <= i < before.len() - 1 ==> !#[trigger] gap_at(before, i),
    ensures
        text::find(before + seq![':', ':'] + after, seq![':', ':']) == Some(before.len() as int),
{
    let colons = seq![':', ':'];
    let s = before + colons + after;
    let k = before.len() as int;
    text::lemma_find_in_range(s, colons);
    assert(s.subrange(k, k + 2) =~= colons);
    assert(text::occurs_at(s, colons, k));
    let at = text::find(s, colons).unwrap();
    assert(text::occurs_at(s, colons, at));
    if at < k {
        assert(s.subrange(at, at + 2)[0] == ':' && s.subrange(at, at + 2)[1] == ':');
        assert(s[at] == ':' && s[at + 1] == ':');
        assert(before[at] == ':');
        if at + 1 < k {
            assert(before[at + 1] == ':');
            assert(gap_at(before, at));
        }
    }
}

proof fn lemma_short_one(head: Seq<Seq<char>>, parts: Seq<Seq<char>>, n: int)
    requires
        forall|i: int| 0 <= i < head.len() ==> writes_zero_group(#[trigger] head[i]),
        write_one(parts, n),
        head.len() + n <= 7,
    ensures
        is_loopback(text::joined(head, ':') + seq![':', ':'] + text::joined(parts, ':')),
{
    let colons = seq![':', ':'];
    let before = text::joined(head, ':');
    let after = text::joined(parts, ':');
    let s = before + colons + after;
    let k = before.len() as int;
    lemma_groups_of_zeros(head);
    lemma_parts_of_one(parts, n);
    if head.len() > 0 {
        lemma_joined_has_no_gap(head);
    }
    lemma_first_gap(before, after);
    assert(s.take(k) =~= before);
    assert(s.skip(k + 2) =~= after);
    let zeros = Seq::new(head.len(), |i: int| 0nat);
    let tail = one_in(n);
    assert(zeros + Seq::new((8 - zeros.len() - tail.len()) as nat, |i: int| 0nat) + tail =~= one_in(
        8,
    ));
    assert(ipv6_groups(s) == Some(one_in(8)));
    assert(s[k] == ':');
    assert(s.contains(':'));
    lemma_no_octets_with_colon(s);
    lemma_one_is_loopback(s);
}

proof fn lemma_groups_write_one(s: Seq<char>, n: int)
    requires
        groups(s, true) == Some(one_in(n)),
        n >= 1,
    ensures
        write_one(text::split_on(s, ':'), n),
        text::joined(text::split_on(s, ':'), ':') == s,
{
    let parts = text::split_on(s, ':');
    let last = parts.last();
    let read = groups(s, true).unwrap();
    text::law_splitting_undoes_joining(s, Seq::empty(), ':');
    assert(read.len() == n);
    let leading = Seq::new((parts.len() - 1) as nat, |i: int| hex_value(parts[i]));
    lemma_hex_groups(last);
    lemma_dotted_one(last);
    if is_hex_group(last) {
        assert(read == leading.push(hex_value(last)));
        assert(read[n - 1] == 1);
        assert(n == parts.len());
    } else {
        let o = ipv4_octets(last).unwrap();
        assert(read == leading.push(256 * o[0] + o[1]).push(256 * o[2] + o[3]));
        assert(read[n - 1] == 1 && read[n - 2] == 0);
        assert(o =~= seq![0nat, 0, 0, 1]);
        assert(n == parts.len() + 1);
    }
    assert forall|i: int| 0 <= i < parts.len() - 1 implies writes_zero_group(#[trigger] parts[i]) by {
        assert(is_hex_group(parts[i]));
        assert(leading[i] == read[i]);
        lemma_hex_groups(parts[i]);
    }
}

proof fn lemma_groups_write_zeros(s: Seq<char>, m: nat) -> (head: Seq<Seq<char>>)
    requires
        groups(s, false) == Some(Seq::new(m, |i: int| 0nat)),
    ensures
        head.len() == m,
        forall|i: int| 0 <= i < head.len() ==> writes_zero_group(#[trigger] head[i]),
        text::joined(head, ':') == s,
{
    let read = groups(s, false).unwrap();
    assert(read.len() == m);
    if s.len() == 0 {
        assert(s =~= Seq::empty());
        Seq::empty()
    } else {
        let parts = text::split_on(s, ':');
        text::law_splitting_undoes_joining(s, Seq::empty(), ':');
        let leading = Seq::new((parts.len() - 1) as nat, |i: int| hex_value(parts[i]));
        assert(read == leading.push(hex_value(parts.last())));
        assert forall|i: int| 0 <= i < parts.len() implies writes_zero_group(#[trigger] parts[i]) by {
            assert(is_hex_group(parts[i]));
            assert(hex_value(parts[i]) == read[i]);
            lemma_hex_groups(parts[i]);
        }
        parts
    }
}

/// With a colon, the texts that are loopback addresses are those that write the IPv6 address one.
pub proof fn law_loopback_with_colons(s: Seq<char>)
    requires
        s.contains(':'),
    ensures
        is_loopback(s) <==> writes_one_address(s),
{
    let colons = seq![':', ':'];
    lemma_no_octets_with_colon(s);
    if is_loopback(s) {
        let all = ipv6_groups(s).unwrap();
        assert(all =~= one_in(8));
        text::lemma_find_in_range(s, colons);
        if let Some(k) = text::find(s, colons) {
            assert(text::occurs_at(s, colons, k));
            let head = groups(s.take(k), false).unwrap();
            let tail = groups(s.skip(k + 2), true).unwrap();
            let gap = Seq::new((8 - head.len() - tail.len()) as nat, |i: int| 0nat);
            assert(all == head + gap + tail);
            assert(tail.len() > 0) by {
                if tail.len() == 0 {
                    assert(all[7] == gap[gap.len() - 1]);
                }
            }
            let n = tail.len() as int;
            assert forall|i: int| 0 <= i < n implies tail[i] == one_in(n)[i] by {
                assert(tail[i] == all[8 - n + i]);
            }
            assert(tail =~= one_in(n));
            assert forall|i: int| 0 <= i < head.len() implies head[i] == 0 by {
                assert(head[i] == all[i]);
            }
            assert(head =~= Seq::new(head.len(), |i: int| 0nat));
            lemma_groups_write_one(s.skip(k + 2), n);
            let zeros = lemma_groups_write_zeros(s.take(k), head.len());
            let parts = text::split_on(s.skip(k + 2), ':');
            assert(s.subrange(k, k + 2) == colons);
            assert(s =~= text::joined(zeros, ':') + colons + text::joined(parts, ':'));
            assert(write_one(parts, n));
        } else {
            lemma_groups_write_one(s, 8);
            assert(text::joined(text::split_on(s, ':'), ':') == s);
        }
    }
    if writes_one_address(s) {
        if exists|parts: Seq<Seq<char>>|
            write_one(parts, 8) && s == #[trigger] text::joined(parts, ':') {
            let parts = choose|parts: Seq<Seq<char>>|
                write_one(parts, 8) && s == #[trigger] text::joined(parts, ':');
            lemma_full_one(parts);
        } else {
            let (head, parts, n) = choose|head: Seq<Seq<char>>, parts: Seq<Seq<char>>, n: int|
                (forall|i: int| 0 <= i < head.len() ==> writes_zero_group(#[trigger] head[i]))
                    && #[trigger] write_one(parts, n) && head.len() + n <= 7 && s
                    == #[trigger] text::joined(head, ':') + colons + text::joined(parts, ':');
            lemma_short_one(head, parts, n);
        }
    }
}

} // verus!
