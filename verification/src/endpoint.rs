//! The rule that guards every way out of this machine: only local endpoints are talked to.

use vstd::prelude::*;
use vstd::slice::slice_subrange;

use crate::split::{
    lemma_one_piece, lemma_pieces_keep, lemma_pieces_parted, lemma_pieces_some, only, pieces,
    split_char,
};
use crate::text::{
    all_digits, ascii_lower, ascii_lowered, chars_of, closes, decimal, digit, digits_value,
    ends_with, find_back, find_from, hex_digit, hex_value, is_digit, is_space, last_position,
    lemma_decimal, lemma_find_back, lemma_find_from, lists, occurs_at, owned, position_from,
    same_chars, string_of, trim, trim_slice, trimming_takes_the_space_around,
};

verus! {

// ---------------------------------------------------------------------------------------------
// Addresses

/// The number that one part of an IPv4 address writes: at most three digits, without a zero in
/// front, up to 255.
pub open spec fn octet(part: Seq<char>) -> Option<nat> {
    if 1 <= part.len() <= 3 && all_digits(part) && (part.len() == 1 || part[0] != '0')
        && digits_value(part) <= 255 {
        Some(digits_value(part))
    } else {
        None
    }
}

/// The four numbers of an IPv4 address in dotted notation.
pub open spec fn ipv4(text: Seq<char>) -> Option<Seq<nat>> {
    let parts = pieces(text, only('.'));
    if parts.len() == 4 && octet(parts[0]) is Some && octet(parts[1]) is Some && octet(
        parts[2],
    ) is Some && octet(parts[3]) is Some {
        Some(seq![octet(parts[0])->0, octet(parts[1])->0, octet(parts[2])->0, octet(parts[3])->0])
    } else {
        None
    }
}

/// The number that hexadecimal digits write.
pub open spec fn hex_digits(part: Seq<char>) -> Option<nat>
    decreases part.len(),
{
    if part.len() == 0 {
        Some(0)
    } else {
        match (hex_digits(part.drop_last()), hex_value(part.last())) {
            (Some(front), Some(d)) => Some(16 * front + d),
            _ => None,
        }
    }
}

/// The number that one group of an IPv6 address writes: one to four hexadecimal digits.
pub open spec fn group(part: Seq<char>) -> Option<nat> {
    if 1 <= part.len() <= 4 {
        hex_digits(part)
    } else {
        None
    }
}

/// The groups that the parts between colons write; where `embedded` is set, the last part may be
/// an IPv4 address, which makes two groups.
pub open spec fn groups(parts: Seq<Seq<char>>, embedded: bool) -> Option<Seq<nat>>
    decreases parts.len(),
{
    if parts.len() == 0 {
        Some(Seq::empty())
    } else {
        match groups(parts.drop_last(), false) {
            None => None,
            Some(front) => if group(parts.last()) is Some {
                Some(front.push(group(parts.last())->0))
            } else if embedded && ipv4(parts.last()) is Some {
                let o = ipv4(parts.last())->0;
                Some(front.push(256 * o[0] + o[1]).push(256 * o[2] + o[3]))
            } else {
                None
            },
        }
    }
}

/// The groups of a stretch of an IPv6 address, which may be empty.
pub open spec fn stretch(text: Seq<char>, embedded: bool) -> Option<Seq<nat>> {
    if text.len() == 0 {
        Some(Seq::empty())
    } else {
        groups(pieces(text, only(':')), embedded)
    }
}

/// So many zero groups.
pub open spec fn zeros(n: int) -> Seq<nat> {
    Seq::new(n as nat, |i: int| 0nat)
}

/// The eight groups of an IPv6 address; a double colon stands for one or more zero groups.
pub open spec fn ipv6(text: Seq<char>) -> Option<Seq<nat>> {
    match find_from(text, seq![':', ':'], 0) {
        None => match stretch(text, true) {
            Some(all) => if all.len() == 8 {
                Some(all)
            } else {
                None
            },
            None => None,
        },
        Some(i) => match (stretch(text.take(i), false), stretch(text.skip(i + 2), true)) {
            (Some(head), Some(tail)) => if head.len() + tail.len() <= 7 {
                Some(head + zeros(8 - head.len() - tail.len()) + tail)
            } else {
                None
            },
            _ => None,
        },
    }
}

/// The text is an IP address.
pub open spec fn is_address(text: Seq<char>) -> bool {
    ipv4(text) is Some || ipv6(text) is Some
}

fn read_octet(part: &[char]) -> (r: Option<u32>)
    ensures
        match r {
            Some(n) => octet(part@) == Some(n as nat) && n <= 255,
            None => octet(part@) is None,
        },
{
    let size: usize = part.len();
    if size < 1 || size > 3 || (size > 1 && part[0] == '0') {
        return None;
    }
    match crate::text::read_number(part, 255) {
        Some(n) => {
            if part[0] == '+' {
                assert(!is_digit(part@[0]));
                return None;
            }
            Some(n as u32)
        },
        None => {
            proof {
                if octet(part@) is Some {
                    assert(is_digit(part@[0]));
                }
            }
            None
        },
    }
}

fn read_ipv4(text: &[char]) -> (r: Option<[u32; 4]>)
    ensures
        match r {
            Some(o) => {
                &&& ipv4(text@) == Some(
                    seq![o@[0] as nat, o@[1] as nat, o@[2] as nat, o@[3] as nat],
                )
                &&& o@[0] <= 255 && o@[1] <= 255 && o@[2] <= 255 && o@[3] <= 255
            },
            None => ipv4(text@) is None,
        },
{
    let parts = split_char(text, '.');
    let ghost all = pieces(text@, only('.'));
    assert(all.len() == parts@.len());
    assert(forall|i: int| 0 <= i < parts@.len() ==> #[trigger] all[i] == parts@[i]@);
    if parts.len() != 4 {
        return None;
    }
    match (
        read_octet(parts[0].as_slice()),
        read_octet(parts[1].as_slice()),
        read_octet(parts[2].as_slice()),
        read_octet(parts[3].as_slice()),
    ) {
        (Some(a), Some(b), Some(c), Some(d)) => Some([a, b, c, d]),
        _ => None,
    }
}

proof fn lemma_hex_digits_prefix(part: Seq<char>, n: int)
    requires
        0 <= n <= part.len(),
        hex_digits(part.take(n)) is None,
    ensures
        hex_digits(part) is None,
    decreases part.len() - n,
{
    if n < part.len() {
        assert(part.take(n + 1).drop_last() =~= part.take(n));
        lemma_hex_digits_prefix(part, n + 1);
    } else {
        assert(part.take(n) =~= part);
    }
}

fn read_group(part: &[char]) -> (r: Option<u32>)
    ensures
        match r {
            Some(n) => group(part@) == Some(n as nat) && n < 0x1_0000,
            None => group(part@) is None,
        },
{
    if part.len() < 1 || part.len() > 4 {
        return None;
    }
    let mut value: u32 = 0;
    let mut i: usize = 0;
    assert(part@.take(0) =~= Seq::<char>::empty());
    while i < part.len()
        invariant
            i <= part@.len(),
            1 <= part@.len() <= 4,
            hex_digits(part@.take(i as int)) == Some(value as nat),
            i == 0 ==> value == 0,
            i == 1 ==> value < 16,
            i == 2 ==> value < 256,
            i == 3 ==> value < 4096,
            i == 4 ==> value < 0x1_0000,
        decreases part.len() - i,
    {
        assert(part@.take(i + 1).drop_last() =~= part@.take(i as int));
        assert(part@.take(i + 1).last() == part@[i as int]);
        match hex_digit(part[i]) {
            Some(d) => {
                value = 16 * value + d;
            },
            None => {
                proof {
                    lemma_hex_digits_prefix(part@, i + 1);
                }
                return None;
            },
        }
        i += 1;
    }
    assert(part@.take(part.len() as int) =~= part@);
    Some(value)
}

/// The numbers as the model counts them.
pub open spec fn as_nats(v: Seq<u32>) -> Seq<nat> {
    Seq::new(v.len(), |i: int| v[i] as nat)
}

proof fn lemma_groups_prefix(parts: Seq<Seq<char>>, n: int, embedded: bool)
    requires
        0 <= n < parts.len(),
        groups(parts.take(n), false) is None,
    ensures
        groups(parts, embedded) is None,
    decreases parts.len() - n,
{
    if n + 1 < parts.len() {
        assert(parts.take(n + 1).drop_last() =~= parts.take(n));
        lemma_groups_prefix(parts, n + 1, embedded);
    } else {
        assert(parts.drop_last() =~= parts.take(n));
    }
}

fn read_stretch(text: &[char], embedded: bool) -> (r: Option<Vec<u32>>)
    ensures
        match r {
            Some(list) => stretch(text@, embedded) == Some(as_nats(list@)),
            None => stretch(text@, embedded) is None,
        },
{
    let mut out: Vec<u32> = Vec::new();
    if text.len() == 0 {
        assert(as_nats(out@) =~= Seq::<nat>::empty());
        return Some(out);
    }
    let parts = split_char(text, ':');
    let ghost all = lists(parts@);
    let n: usize = parts.len();
    proof {
        lemma_pieces_some(text@, only(':'));
    }
    assert(n > 0);
    let mut i: usize = 0;
    assert(as_nats(out@) =~= Seq::<nat>::empty());
    assert(all.take(0) =~= Seq::<Seq<char>>::empty());
    while i < n - 1
        invariant
            i <= n - 1,
            n == parts@.len(),
            n > 0,
            text@.len() > 0,
            all == lists(parts@),
            all == pieces(text@, only(':')),
            groups(all.take(i as int), false) == Some(as_nats(out@)),
        decreases n - i,
    {
        assert(all.take(i + 1).drop_last() =~= all.take(i as int));
        assert(all.take(i + 1).last() == parts@[i as int]@);
        match read_group(parts[i].as_slice()) {
            Some(v) => {
                let ghost before = as_nats(out@);
                out.push(v);
                assert(as_nats(out@) =~= before.push(v as nat));
            },
            None => {
                proof {
                    assert(groups(all.take(i + 1), false) is None);
                    lemma_groups_prefix(all, i + 1, embedded);
                }
                return None;
            },
        }
        i += 1;
    }
    assert(all.drop_last() =~= all.take(n - 1));
    assert(all.last() == parts@[n - 1]@);
    let last = parts[n - 1].as_slice();
    let ghost before = as_nats(out@);
    if let Some(v) = read_group(last) {
        out.push(v);
        assert(as_nats(out@) =~= before.push(v as nat));
        return Some(out);
    }
    if embedded {
        if let Some(o) = read_ipv4(last) {
            let high: u32 = 256 * o[0] + o[1];
            let low: u32 = 256 * o[2] + o[3];
            out.push(high);
            out.push(low);
            assert(as_nats(out@) =~= before.push(high as nat).push(low as nat));
            return Some(out);
        }
    }
    None
}

fn read_ipv6(text: &[char]) -> (r: Option<Vec<u32>>)
    ensures
        match r {
            Some(list) => ipv6(text@) == Some(as_nats(list@)) && list@.len() == 8,
            None => ipv6(text@) is None,
        },
{
    let double: [char; 2] = [':', ':'];
    assert(double@ =~= seq![':', ':']);
    let size: usize = text.len();
    match position_from(text, double.as_slice(), 0) {
        None => match read_stretch(text, true) {
            Some(list) => {
                assert(as_nats(list@).len() == list@.len());
                if list.len() == 8 {
                    Some(list)
                } else {
                    None
                }
            },
            None => None,
        },
        Some(i) => {
            let left = slice_subrange(text, 0, i);
            let right = slice_subrange(text, i + 2, size);
            assert(left@ =~= text@.take(i as int));
            assert(right@ =~= text@.skip(i + 2));
            match (read_stretch(left, false), read_stretch(right, true)) {
                (Some(head), Some(tail)) => {
                    assert(as_nats(head@).len() == head@.len());
                    assert(as_nats(tail@).len() == tail@.len());
                    if head.len() > 7 || tail.len() > 7 - head.len() {
                        return None;
                    }
                    let mut out: Vec<u32> = Vec::new();
                    let gap: usize = 8 - head.len() - tail.len();
                    let ghost whole = as_nats(head@) + zeros(gap as int) + as_nats(tail@);
                    let mut k: usize = 0;
                    while k < 8
                        invariant
                            k <= 8,
                            gap == 8 - head@.len() - tail@.len(),
                            head@.len() + tail@.len() <= 7,
                            whole == as_nats(head@) + zeros(gap as int) + as_nats(tail@),
                            out@.len() == k,
                            as_nats(out@) == whole.take(k as int),
                        decreases 8 - k,
                    {
                        let v: u32 = if k < head.len() {
                            head[k]
                        } else if k < head.len() + gap {
                            0
                        } else {
                            tail[k - head.len() - gap]
                        };
                        let ghost before = as_nats(out@);
                        out.push(v);
                        assert(as_nats(out@) =~= before.push(v as nat));
                        assert(as_nats(out@) =~= whole.take(k + 1));
                        k += 1;
                    }
                    assert(whole.take(8) =~= whole);
                    Some(out)
                },
                _ => None,
            }
        },
    }
}

// ---------------------------------------------------------------------------------------------
// Hosts

/// The IPv4 address is one of the loopback addresses.
pub open spec fn loopback4(o: Seq<nat>) -> bool {
    o[0] == 127
}

/// The IPv4 address lies in a private range.
pub open spec fn private4(o: Seq<nat>) -> bool {
    ||| o[0] == 10
    ||| o[0] == 172 && 16 <= o[1] <= 31
    ||| o[0] == 192 && o[1] == 168
}

/// The IPv6 address is the loopback address.
pub open spec fn loopback6(g: Seq<nat>) -> bool {
    g == zeros(7).push(1)
}

/// The host is this machine or one on its own network: `localhost`, a `.local` name, a loopback
/// address or one in a private range.
pub open spec fn local_host(host: Seq<char>) -> bool {
    let name = trim(host);
    ||| ascii_lower(name) == "localhost"@
    ||| ends_with(ascii_lower(name), ".local"@)
    ||| ipv4(name) matches Some(o) && (loopback4(o) || private4(o))
    ||| ipv6(name) matches Some(g) && loopback6(g)
}

fn local_chars(host: &[char]) -> (r: bool)
    ensures
        r == local_host(host@),
{
    let name = trim_slice(host);
    let lowered = ascii_lowered(name);
    let localhost = chars_of("localhost");
    if same_chars(lowered.as_slice(), localhost.as_slice()) {
        return true;
    }
    let suffix = chars_of(".local");
    if closes(lowered.as_slice(), suffix.as_slice()) {
        return true;
    }
    if let Some(o) = read_ipv4(name) {
        if o[0] == 127 || o[0] == 10 || (o[0] == 172 && 16 <= o[1] && o[1] <= 31) || (o[0] == 192
            && o[1] == 168) {
            return true;
        }
    }
    if let Some(g) = read_ipv6(name) {
        let ghost nats = as_nats(g@);
        let ghost one = zeros(7).push(1);
        if g[0] == 0 && g[1] == 0 && g[2] == 0 && g[3] == 0 && g[4] == 0 && g[5] == 0 && g[6] == 0
            && g[7] == 1 {
            assert(nats =~= one);
            return true;
        }
        assert(nats != one) by {
            if nats == one {
                assert(nats[0] == one[0] && nats[1] == one[1] && nats[2] == one[2] && nats[3]
                    == one[3] && nats[4] == one[4] && nats[5] == one[5] && nats[6] == one[6]
                    && nats[7] == one[7]);
            }
        }
    }
    false
}

/// Whether a host is this machine or one on its own network. Anything else is refused before a
/// single byte leaves.
pub fn is_local_host(host: &str) -> (r: bool)
    ensures
        r == local_host(host@),
{
    let chars = chars_of(host);
    local_chars(chars.as_slice())
}

/// An IPv4 address holds digits and dots, and ends in a digit.
proof fn lemma_ipv4_chars(text: Seq<char>)
    requires
        ipv4(text) is Some,
    ensures
        text.len() > 0,
        is_digit(text.last()),
        forall|i: int| 0 <= i < text.len() ==> (is_digit(#[trigger] text[i]) || text[i] == '.'),
{
    let sep = only('.');
    let parts = pieces(text, sep);
    assert(octet(parts[3]) is Some);
    assert forall|i: int| 0 <= i < text.len() implies (is_digit(#[trigger] text[i]) || text[i]
        == '.') by {
        if text[i] != '.' {
            assert(!sep(text[i]));
            lemma_pieces_keep(text, sep, i);
            let (k, j) = choose|k: int, j: int|
                0 <= k < parts.len() && 0 <= j < parts[k].len() && #[trigger] parts[k][j]
                    == text[i];
            assert(octet(parts[k]) is Some);
            assert(is_digit(parts[k][j]));
        }
    }
    if text[text.len() - 1] == '.' {
        assert(sep(text.last()));
        assert(parts.last().len() == 0);
    }
}

/// An IPv4 address is no IPv6 address.
proof fn lemma_ipv4_alone(text: Seq<char>)
    requires
        ipv4(text) is Some,
    ensures
        ipv6(text) is None,
{
    lemma_ipv4_chars(text);
    let sep = only(':');
    assert forall|i: int| 0 <= i < text.len() implies !sep(#[trigger] text[i]) by {
        assert(is_digit(text[i]) || text[i] == '.');
    }
    lemma_one_piece(text, sep);
    lemma_find_from(text, seq![':', ':'], 0);
    if let Some(i) = find_from(text, seq![':', ':'], 0) {
        assert(text.subrange(i, i + 2)[0] == text[i]);
        assert(!sep(text[i]));
    }
    let one = seq![text];
    assert(one.drop_last() =~= Seq::<Seq<char>>::empty());
    assert(groups(one.drop_last(), false) == Some(Seq::<nat>::empty()));
}

/// An IPv4 address outside the loopback and private ranges is no local host.
pub proof fn public_addresses_are_refused(host: Seq<char>, o: Seq<nat>)
    requires
        ipv4(trim(host)) == Some(o),
        !loopback4(o),
        !private4(o),
    ensures
        !local_host(host),
{
    let name = trim(host);
    lemma_ipv4_chars(name);
    lemma_ipv4_alone(name);
    let lowered = ascii_lower(name);
    assert(is_digit(lowered.last()));
    assert("localhost"@.last() == 't') by {
        reveal_strlit("localhost");
    }
    assert(".local"@.len() == 6 && ".local"@[5] == 'l') by {
        reveal_strlit(".local");
    }
    if ends_with(lowered, ".local"@) {
        assert(lowered.subrange(lowered.len() - 6, lowered.len() as int)[5] == lowered.last());
    }
}

/// The host without its port, and without the brackets of an IPv6 address. Behind the brackets
/// nothing but a port may stand.
pub open spec fn without_port(host: Seq<char>) -> Seq<char> {
    if host.len() > 0 && host[0] == '[' {
        match find_from(host, seq![']'], 0) {
            Some(i) => if i + 1 == host.len() || host[i + 1] == ':' {
                host.subrange(1, i)
            } else {
                host
            },
            None => host,
        }
    } else if is_address(host) {
        host
    } else {
        match find_back(host, seq![':'], host.len() as int) {
            Some(i) => host.take(i),
            None => host,
        }
    }
}

/// The character ends the part of a URL that names the host.
pub open spec fn ends_authority(c: char) -> bool {
    c == '/' || c == '?' || c == '#'
}

/// The text up to the first character that ends an authority.
pub open spec fn authority_of(text: Seq<char>) -> Seq<char>
    decreases text.len(),
{
    if text.len() == 0 || ends_authority(text[0]) {
        Seq::empty()
    } else {
        seq![text[0]] + authority_of(text.skip(1))
    }
}

/// The URL without its scheme. A scheme stands in front of the first `://` and holds no character
/// that ends an authority; a URL without a scheme begins with its authority.
pub open spec fn without_scheme(url: Seq<char>) -> Seq<char> {
    match find_from(url, seq![':', '/', '/'], 0) {
        Some(i) => if authority_of(url.take(i)) == url.take(i) {
            url.skip(i + 3)
        } else {
            url
        },
        None => url,
    }
}

/// An authority without the user info in front of its last `@`.
pub open spec fn without_user(authority: Seq<char>) -> Seq<char> {
    match find_back(authority, seq!['@'], authority.len() as int) {
        Some(i) => authority.skip(i + 1),
        None => authority,
    }
}

/// The host of a URL.
pub open spec fn url_host(url: Seq<char>) -> Seq<char> {
    without_port(without_user(authority_of(without_scheme(url))))
}

/// The URL names a host on the local network.
pub open spec fn local_endpoint(url: Seq<char>) -> bool {
    local_host(url_host(url))
}

/// What the first `n` characters and the rest say of the end of an authority.
proof fn lemma_authority(text: Seq<char>, n: int)
    requires
        0 <= n <= text.len(),
        forall|i: int| 0 <= i < n ==> !ends_authority(#[trigger] text[i]),
        n == text.len() || ends_authority(text[n]),
    ensures
        authority_of(text) == text.take(n),
    decreases n,
{
    if n == 0 {
        assert(text.take(0) =~= Seq::<char>::empty());
    } else {
        let rest = text.skip(1);
        assert forall|i: int| 0 <= i < n - 1 implies !ends_authority(#[trigger] rest[i]) by {
            assert(!ends_authority(text[i + 1]));
        }
        assert(!ends_authority(text[0]));
        lemma_authority(rest, n - 1);
        assert(seq![text[0]] + rest.take(n - 1) =~= text.take(n));
    }
}

/// What stands in front of an authority's end is kept whole, and the end and all behind it is
/// left out.
proof fn lemma_authority_cut(head: Seq<char>, c: char, tail: Seq<char>)
    requires
        forall|i: int| 0 <= i < head.len() ==> !ends_authority(#[trigger] head[i]),
        ends_authority(c),
    ensures
        authority_of(head.push(c) + tail) == head,
{
    let text = head.push(c) + tail;
    assert forall|i: int| 0 <= i < head.len() implies !ends_authority(#[trigger] text[i]) by {
        assert(text[i] == head[i]);
    }
    assert(text[head.len() as int] == c);
    lemma_authority(text, head.len() as int);
    assert(text.take(head.len() as int) =~= head);
}

/// User info says nothing about the host: what stands in front of an `@`, in an authority without
/// further ones behind it, changes nothing.
pub proof fn user_info_is_no_host(user: Seq<char>, host: Seq<char>)
    requires
        forall|i: int| 0 <= i < host.len() ==> #[trigger] host[i] != '@',
    ensures
        without_user(user.push('@') + host) == host,
        without_user(host) == host,
{
    let at = seq!['@'];
    let all = user.push('@') + host;
    lemma_find_back(all, at, all.len() as int);
    lemma_find_back(host, at, host.len() as int);
    let k = user.len() as int;
    assert(all.subrange(k, k + 1) =~= at);
    assert(occurs_at(all, at, k));
    match find_back(all, at, all.len() as int) {
        Some(i) => {
            assert(all.subrange(i, i + 1)[0] == '@');
            if i > k {
                assert(all[i] == host[i - k - 1]);
            }
            assert(all.skip(k + 1) =~= host);
        },
        None => {},
    }
    if let Some(i) = find_back(host, at, host.len() as int) {
        assert(host.subrange(i, i + 1)[0] == host[i]);
    }
}

/// What stands behind the end of an authority, a path or a query, cannot make a URL local: the host
/// is the same without it.
pub proof fn nothing_behind_the_authority_counts(
    scheme: Seq<char>,
    authority: Seq<char>,
    c: char,
    tail: Seq<char>,
)
    requires
        forall|i: int|
            0 <= i < scheme.len() ==> !ends_authority(#[trigger] scheme[i]) && scheme[i] != ':',
        forall|i: int| 0 <= i < authority.len() ==> !ends_authority(#[trigger] authority[i]),
        ends_authority(c),
    ensures
        ({
            let url = scheme + seq![':', '/', '/'] + authority;
            &&& url_host(url) == without_port(without_user(authority))
            &&& url_host(url.push(c) + tail) == url_host(url)
        }),
{
    let mark = seq![':', '/', '/'];
    let url = scheme + mark + authority;
    let longer = url.push(c) + tail;
    lemma_scheme(scheme, authority);
    assert(longer =~= scheme + mark + (authority.push(c) + tail));
    lemma_scheme(scheme, authority.push(c) + tail);
    lemma_authority_cut(authority, c, tail);
    lemma_authority(authority, authority.len() as int);
    assert(authority.take(authority.len() as int) =~= authority);
}

proof fn lemma_scheme(scheme: Seq<char>, rest: Seq<char>)
    requires
        forall|i: int|
            0 <= i < scheme.len() ==> !ends_authority(#[trigger] scheme[i]) && scheme[i] != ':',
    ensures
        without_scheme(scheme + seq![':', '/', '/'] + rest) == rest,
{
    let mark = seq![':', '/', '/'];
    let url = scheme + mark + rest;
    let k = scheme.len() as int;
    lemma_find_from(url, mark, 0);
    assert(url.subrange(k, k + 3) =~= mark);
    assert(occurs_at(url, mark, k));
    match find_from(url, mark, 0) {
        Some(i) => {
            if i < k {
                assert(url.subrange(i, i + 3)[0] == url[i]);
                assert(url[i] == scheme[i]);
            }
            assert(i == k);
            assert(url.take(k) =~= scheme);
            lemma_authority(scheme, k);
            assert(scheme.take(k) =~= scheme);
            assert(url.skip(k + 3) =~= rest);
        },
        None => {},
    }
}

fn authority_slice<'a>(text: &'a [char]) -> (r: &'a [char])
    ensures
        r@ == authority_of(text@),
{
    let mut n: usize = 0;
    while n < text.len() && !(text[n] == '/' || text[n] == '?' || text[n] == '#')
        invariant
            n <= text@.len(),
            forall|i: int| 0 <= i < n ==> !ends_authority(#[trigger] text@[i]),
        decreases text.len() - n,
    {
        n += 1;
    }
    proof {
        lemma_authority(text@, n as int);
    }
    assert(text@.subrange(0, n as int) =~= text@.take(n as int));
    slice_subrange(text, 0, n)
}

fn scheme_free<'a>(url: &'a [char]) -> (r: &'a [char])
    ensures
        r@ == without_scheme(url@),
{
    let mark: [char; 3] = [':', '/', '/'];
    assert(mark@ =~= seq![':', '/', '/']);
    proof {
        lemma_find_from(url@, mark@, 0);
    }
    if let Some(i) = position_from(url, mark.as_slice(), 0) {
        let scheme = slice_subrange(url, 0, i);
        assert(scheme@ =~= url@.take(i as int));
        if same_chars(authority_slice(scheme), scheme) {
            let size: usize = url.len();
            let rest = slice_subrange(url, i + 3, size);
            assert(rest@ =~= url@.skip(i + 3));
            return rest;
        }
    }
    url
}

fn user_free<'a>(authority: &'a [char]) -> (r: &'a [char])
    ensures
        r@ == without_user(authority@),
{
    let at: [char; 1] = ['@'];
    assert(at@ =~= seq!['@']);
    proof {
        lemma_find_back(authority@, at@, authority@.len() as int);
    }
    match last_position(authority, at.as_slice()) {
        Some(i) => {
            let size: usize = authority.len();
            let host = slice_subrange(authority, i + 1, size);
            assert(host@ =~= authority@.skip(i + 1));
            host
        },
        None => authority,
    }
}

fn strip_port<'a>(host: &'a [char]) -> (r: &'a [char])
    ensures
        r@ == without_port(host@),
{
    let size: usize = host.len();
    if size > 0 && host[0] == '[' {
        let close: [char; 1] = [']'];
        assert(close@ =~= seq![']']);
        proof {
            lemma_find_from(host@, close@, 0);
        }
        if let Some(i) = position_from(host, close.as_slice(), 0) {
            assert(host@.subrange(i as int, i + 1)[0] == host@[i as int]);
            if i + 1 == size || host[i + 1] == ':' {
                return slice_subrange(host, 1, i);
            }
        }
        return host;
    }
    if read_ipv4(host).is_some() || read_ipv6(host).is_some() {
        return host;
    }
    let colon: [char; 1] = [':'];
    assert(colon@ =~= seq![':']);
    match last_position(host, colon.as_slice()) {
        Some(i) => {
            let head = slice_subrange(host, 0, i);
            assert(head@ =~= host@.take(i as int));
            head
        },
        None => host,
    }
}

/// An endpoint outside the local network.
#[derive(Debug)]
pub struct NonLocalEndpoint {
    pub host: String,
}

impl NonLocalEndpoint {
    /// What the user is told.
    pub fn message(&self) -> (r: String)
        ensures
            r@ == "refusing a non-local endpoint: "@ + self.host@ + " (local-only for now)"@,
    {
        let mut out = owned("refusing a non-local endpoint: ");
        out.push_str(self.host.as_str());
        out.push_str(" (local-only for now)");
        out
    }
}

/// Refuses a non-local endpoint before a single byte leaves. Captioning and chatting share this
/// rule, so that neither is a way around it.
pub fn ensure_local_endpoint(url: &str) -> (r: Result<(), NonLocalEndpoint>)
    ensures
        match r {
            Ok(()) => local_endpoint(url@),
            Err(error) => !local_endpoint(url@) && error.host@ == url_host(url@),
        },
{
    let chars = chars_of(url);
    let host = strip_port(user_free(authority_slice(scheme_free(chars.as_slice()))));
    if local_chars(host) {
        Ok(())
    } else {
        Err(NonLocalEndpoint { host: string_of(host) })
    }
}

/// The decimal notation of a number up to 255 is a part of an address.
proof fn lemma_octet(n: nat)
    requires
        n <= 255,
    ensures
        octet(decimal(n)) == Some(n),
        forall|i: int| 0 <= i < decimal(n).len() ==> is_digit(#[trigger] decimal(n)[i]),
{
    lemma_decimal(n);
    if n >= 10 {
        assert(decimal(n) == decimal(n / 10).push(digit((n % 10) as int)));
        if n >= 100 {
            assert(n / 10 >= 10 && n / 10 < 100);
            assert(decimal(n / 10) == decimal((n / 10) / 10).push(digit(((n / 10) % 10) as int)));
            assert(1 <= (n / 10) / 10 < 10);
            assert(decimal(n)[0] == digit(((n / 10) / 10) as int));
        } else {
            assert(1 <= n / 10 < 10);
            assert(decimal(n)[0] == digit((n / 10) as int));
        }
    }
}

/// The dotted notation of four numbers.
pub open spec fn dotted(a: nat, b: nat, c: nat, d: nat) -> Seq<char> {
    decimal(a).push('.') + (decimal(b).push('.') + (decimal(c).push('.') + decimal(d)))
}

proof fn lemma_dotted(a: nat, b: nat, c: nat, d: nat)
    requires
        a <= 255,
        b <= 255,
        c <= 255,
        d <= 255,
    ensures
        ipv4(dotted(a, b, c, d)) == Some(seq![a, b, c, d]),
{
    let sep = only('.');
    lemma_octet(a);
    lemma_octet(b);
    lemma_octet(c);
    lemma_octet(d);
    assert forall|n: nat, i: int| n <= 255 && 0 <= i < decimal(n).len() implies !sep(
        #[trigger] decimal(n)[i],
    ) by {
        lemma_octet(n);
    }
    lemma_one_piece(decimal(a), sep);
    lemma_one_piece(decimal(b), sep);
    lemma_one_piece(decimal(c), sep);
    lemma_one_piece(decimal(d), sep);
    let third = decimal(c).push('.') + decimal(d);
    let second = decimal(b).push('.') + third;
    lemma_pieces_parted(decimal(c), '.', decimal(d), sep);
    lemma_pieces_parted(decimal(b), '.', third, sep);
    lemma_pieces_parted(decimal(a), '.', second, sep);
    let parts = pieces(dotted(a, b, c, d), sep);
    assert(parts =~= seq![decimal(a), decimal(b), decimal(c), decimal(d)]);
    assert(ipv4(dotted(a, b, c, d))->0 =~= seq![a, b, c, d]);
}

/// Of the addresses in dotted notation those of this machine and of the three private ranges are
/// local, and no other one.
pub proof fn dotted_addresses_are_local_or_not(a: nat, b: nat, c: nat, d: nat)
    requires
        a <= 255,
        b <= 255,
        c <= 255,
        d <= 255,
    ensures
        local_host(dotted(a, b, c, d)) <==> a == 127 || a == 10 || (a == 172 && 16 <= b <= 31) || (a
            == 192 && b == 168),
{
    let host = dotted(a, b, c, d);
    lemma_dotted(a, b, c, d);
    lemma_ipv4_chars(host);
    assert(!is_space(host[0]) && !is_space(host.last()));
    trimming_takes_the_space_around(Seq::empty(), host, Seq::empty());
    assert(Seq::<char>::empty() + host + Seq::<char>::empty() =~= host);
    assert(trim(host) == host);
    let o = seq![a, b, c, d];
    assert(o[0] == a && o[1] == b);
    if !loopback4(o) && !private4(o) {
        public_addresses_are_refused(host, o);
    }
}

/// `localhost` and the names that end in `.local` are local, in small letters, in capitals, and with
/// white space around them.
pub proof fn local_names_are_local(host: Seq<char>, front: Seq<char>)
    ensures
        ascii_lower(trim(host)) == "localhost"@ ==> local_host(host),
        ascii_lower(trim(host)) == front + ".local"@ ==> local_host(host),
{
    reveal_strlit(".local");
    let name = ascii_lower(trim(host));
    if name == front + ".local"@ {
        assert(name.subrange(name.len() - 6, name.len() as int) =~= ".local"@);
    }
}

/// The character may stand in an address.
pub open spec fn in_addresses(c: char) -> bool {
    hex_value(c) is Some || c == '.' || c == ':'
}

proof fn lemma_hex_digits_chars(part: Seq<char>, i: int)
    requires
        hex_digits(part) is Some,
        0 <= i < part.len(),
    ensures
        hex_value(part[i]) is Some,
    decreases part.len(),
{
    if i < part.len() - 1 {
        lemma_hex_digits_chars(part.drop_last(), i);
    }
}

proof fn lemma_groups_chars(parts: Seq<Seq<char>>, embedded: bool, k: int, j: int)
    requires
        groups(parts, embedded) is Some,
        0 <= k < parts.len(),
        0 <= j < parts[k].len(),
    ensures
        in_addresses(parts[k][j]),
    decreases parts.len(),
{
    if k < parts.len() - 1 {
        lemma_groups_chars(parts.drop_last(), false, k, j);
        assert(parts.drop_last()[k] == parts[k]);
    } else if group(parts.last()) is Some {
        lemma_hex_digits_chars(parts[k], j);
    } else {
        lemma_ipv4_chars(parts[k]);
        assert(is_digit(parts[k][j]) || parts[k][j] == '.');
    }
}

proof fn lemma_stretch_chars(text: Seq<char>, embedded: bool, i: int)
    requires
        stretch(text, embedded) is Some,
        0 <= i < text.len(),
    ensures
        in_addresses(text[i]),
{
    let sep = only(':');
    if text[i] != ':' {
        lemma_pieces_keep(text, sep, i);
        let parts = pieces(text, sep);
        let (k, j) = choose|k: int, j: int|
            0 <= k < parts.len() && 0 <= j < parts[k].len() && #[trigger] parts[k][j] == text[i];
        lemma_groups_chars(parts, embedded, k, j);
    }
}

proof fn lemma_ipv6_chars(text: Seq<char>, i: int)
    requires
        ipv6(text) is Some,
        0 <= i < text.len(),
    ensures
        in_addresses(text[i]),
{
    let double = seq![':', ':'];
    lemma_find_from(text, double, 0);
    match find_from(text, double, 0) {
        None => {
            lemma_stretch_chars(text, true, i);
        },
        Some(k) => {
            assert(text.subrange(k, k + 2)[0] == text[k] && text.subrange(k, k + 2)[1] == text[k
                + 1]);
            if i < k {
                lemma_stretch_chars(text.take(k), false, i);
                assert(text.take(k)[i] == text[i]);
            } else if i >= k + 2 {
                lemma_stretch_chars(text.skip(k + 2), true, i - k - 2);
                assert(text.skip(k + 2)[i - k - 2] == text[i]);
            }
        },
    }
}

/// A name that is no address, is not `localhost` and does not end in `.local` is not local.
pub proof fn other_names_are_refused(host: Seq<char>, i: int)
    requires
        0 <= i < trim(host).len(),
        !in_addresses(trim(host)[i]),
        ascii_lower(trim(host)) != "localhost"@,
        !ends_with(ascii_lower(trim(host)), ".local"@),
    ensures
        !local_host(host),
{
    let name = trim(host);
    if ipv4(name) is Some {
        lemma_ipv4_chars(name);
        assert(is_digit(name[i]) || name[i] == '.');
    }
    if ipv6(name) is Some {
        lemma_ipv6_chars(name, i);
    }
}

/// Of the addresses of version six the loopback address alone is local.
pub proof fn loopback_is_one(g: Seq<nat>)
    requires
        g.len() == 8,
    ensures
        loopback6(g) <==> g[0] == 0 && g[1] == 0 && g[2] == 0 && g[3] == 0 && g[4] == 0 && g[5] == 0
            && g[6] == 0 && g[7] == 1,
{
    let one = zeros(7).push(1);
    if g[0] == 0 && g[1] == 0 && g[2] == 0 && g[3] == 0 && g[4] == 0 && g[5] == 0 && g[6] == 0
        && g[7] == 1 {
        assert(g =~= one);
    }
    if g == one {
        assert(one[0] == 0 && one[1] == 0 && one[2] == 0 && one[3] == 0 && one[4] == 0 && one[5]
            == 0 && one[6] == 0 && one[7] == 1);
    }
}

/// A port says nothing about the host, and neither do the brackets around an address.
pub proof fn ports_do_not_count(name: Seq<char>, port: Seq<char>)
    requires
        name.len() > 0,
        name[0] != '[',
        forall|i: int| 0 <= i < name.len() ==> (#[trigger] name[i]) != ']',
        forall|i: int| 0 <= i < port.len() ==> (#[trigger] port[i]) != ':',
    ensures
        !is_address(name.push(':') + port) ==> without_port(name.push(':') + port) == name,
        without_port(seq!['['] + name + seq![']', ':'] + port) == name,
        without_port(seq!['['] + name + seq![']']) == name,
{
    let colon = seq![':'];
    let all = name.push(':') + port;
    let k = name.len() as int;
    lemma_find_back(all, colon, all.len() as int);
    assert(all.subrange(k, k + 1) =~= colon);
    assert(occurs_at(all, colon, k));
    match find_back(all, colon, all.len() as int) {
        Some(i) => {
            assert(all.subrange(i, i + 1)[0] == ':');
            if i > k {
                assert(all[i] == port[i - k - 1]);
            }
            assert(all.take(k) =~= name);
        },
        None => {},
    }
    lemma_bracketed(name, seq![':'] + port);
    assert(seq!['['] + name + seq![']', ':'] + port =~= seq!['['] + name + seq![']'] + (seq![':']
        + port));
    lemma_bracketed(name, Seq::empty());
    assert(seq!['['] + name + seq![']'] =~= seq!['['] + name + seq![']'] + Seq::empty());
}

#[verifier::spinoff_prover]
proof fn lemma_bracketed(name: Seq<char>, rest: Seq<char>)
    requires
        forall|i: int| 0 <= i < name.len() ==> (#[trigger] name[i]) != ']',
        rest.len() == 0 || rest[0] == ':',
    ensures
        without_port(seq!['['] + name + seq![']'] + rest) == name,
{
    let close = seq![']'];
    let host = seq!['['] + name + close + rest;
    let k: int = name.len() as int + 1;
    assert(close.len() == 1 && close[0] == ']');
    assert(host.len() == k + 1 + rest.len());
    assert(host[0] == '[');
    assert(host[k] == ']');
    assert(host.subrange(k, k + 1) =~= close);
    assert(occurs_at(host, close, k));
    assert forall|i: int| 0 <= i < k implies !occurs_at(host, close, i) by {
        assert(host.subrange(i, i + 1)[0] == host[i]);
        if i > 0 {
            assert(host[i] == name[i - 1]);
        }
    }
    lemma_find_from(host, close, 0);
    let found = find_from(host, close, 0);
    assert(found is Some);
    assert(found->0 == k);
    assert(host.subrange(1, k) =~= name);
    if rest.len() > 0 {
        assert(host[k + 1] == rest[0]);
    }
}

/// An address of version six has eight groups, and a double colon stands for as many zero groups as
/// it takes to make eight.
pub proof fn addresses_have_eight_groups(text: Seq<char>)
    ensures
        ipv6(text) matches Some(g) ==> g.len() == 8,
        ipv4(text) matches Some(o) ==> o.len() == 4,
        find_from(text, seq![':', ':'], 0) matches Some(i) ==> (ipv6(text) matches Some(g) ==> {
            let head = stretch(text.take(i), false)->0;
            let tail = stretch(text.skip(i + 2), true)->0;
            &&& head.len() + tail.len() < 8
            &&& g.take(head.len() as int) == head
            &&& g.skip(8 - tail.len()) == tail
            &&& forall|k: int| head.len() <= k < 8 - tail.len() ==> (#[trigger] g[k]) == 0
        }),
{
    if let Some(i) = find_from(text, seq![':', ':'], 0) {
        if let Some(g) = ipv6(text) {
            let head = stretch(text.take(i), false)->0;
            let tail = stretch(text.skip(i + 2), true)->0;
            assert(g.take(head.len() as int) =~= head);
            assert(g.skip(8 - tail.len()) =~= tail);
        }
    }
}

proof fn lemma_authority_short(text: Seq<char>, k: int)
    requires
        0 <= k < text.len(),
        ends_authority(text[k]),
    ensures
        authority_of(text).len() <= k,
    decreases k,
{
    if k > 0 && !ends_authority(text[0]) {
        assert(text.skip(1)[k - 1] == text[k]);
        lemma_authority_short(text.skip(1), k - 1);
    }
}

/// A scheme holds no character that ends an authority: where one stands before the first `://`, or
/// where there is no `://`, the URL begins with its authority.
pub proof fn schemes_stand_before_any_path(
    url: Seq<char>,
    mark: Seq<char>,
    at: int,
    k: int,
)
    requires
        mark == seq![':', '/', '/'],
    ensures
        0 <= k < at && occurs_at(url, mark, at) && (forall|j: int|
            0 <= j < at ==> !#[trigger] occurs_at(url, mark, j)) && (url[k] == '/' || url[k] == '?'
            || url[k] == '#') ==> without_scheme(url) == url,
        (forall|j: int| !#[trigger] occurs_at(url, mark, j)) ==> without_scheme(url) == url,
{
    lemma_find_from(url, mark, 0);
    if let Some(i) = find_from(url, mark, 0) {
        if 0 <= k < at && occurs_at(url, mark, at) && (forall|j: int|
            0 <= j < at ==> !#[trigger] occurs_at(url, mark, j)) && (url[k] == '/' || url[k] == '?'
            || url[k] == '#') {
            assert(i == at);
            assert(url.take(i)[k] == url[k]);
            lemma_authority_short(url.take(i), k);
        }
    }
}

/// Behind the brackets of an address nothing but a port may stand: with anything else there the host
/// is taken as it is.
#[verifier::spinoff_prover]
pub proof fn nothing_but_a_port_follows_brackets(name: Seq<char>, c: char, rest: Seq<char>)
    requires
        forall|i: int| 0 <= i < name.len() ==> (#[trigger] name[i]) != ']',
        c != ':',
    ensures
        without_port(seq!['['] + name + seq![']', c] + rest) == seq!['['] + name + seq![']', c]
            + rest,
{
    let close = seq![']'];
    let host = seq!['['] + name + seq![']', c] + rest;
    let k: int = name.len() as int + 1;
    assert(host[0] == '[');
    assert(host[k] == ']' && host[k + 1] == c);
    assert(host.subrange(k, k + 1) =~= close);
    assert(occurs_at(host, close, k));
    assert forall|i: int| 0 <= i < k implies !occurs_at(host, close, i) by {
        assert(host.subrange(i, i + 1)[0] == host[i]);
        assert(close[0] == ']');
        if i > 0 {
            assert(host[i] == name[i - 1]);
        }
    }
    lemma_find_from(host, close, 0);
    let found = find_from(host, close, 0);
    assert(found is Some);
    assert(found->0 == k);
}

/// A part of an address is written in one way only: up to three digits, without a zero in front of
/// others, up to 255.
pub proof fn octets_have_one_notation(part: Seq<char>)
    ensures
        octet(part) matches Some(n) ==> {
            &&& n <= 255
            &&& n == digits_value(part)
            &&& 1 <= part.len() <= 3
            &&& all_digits(part)
            &&& part.len() > 1 ==> part[0] != '0'
        },
{
}

} // verus!
