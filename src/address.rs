//! Resolution of a textual `host:port` endpoint into a protocol stack:
//! IP layer (IPv4 or IPv6), UDP port, and the QUIC v1 secure transport.

use vstd::prelude::*;
use crate::text::{
    all_digits, chars_of, copy_range, find_last, last_index_of, number_value, parse_number,
    split_chars, split_on, digit_value, joined, nats_of, number_text, push_joined, push_number,
    canonical_decimal, join_parts, lemma_decimal_text, lemma_join_split, lemma_joined_parts,
};

verus! {

/// One layer of a network address stack.
#[derive(Debug, Clone, PartialEq, Eq)]
pub enum Protocol {
    /// IPv4 host, four octets.
    Ip4(Vec<u8>),
    /// IPv6 host, eight 16-bit groups.
    Ip6(Vec<u16>),
    /// UDP port.
    Udp(u16),
    /// QUIC v1 secure, multiplexed transport carried over UDP.
    QuicV1,
}

/// The mathematical value of a [`Protocol`] layer.
pub enum Layer {
    Ip4(Seq<u8>),
    Ip6(Seq<u16>),
    Udp(u16),
    QuicV1,
}

impl View for Protocol {
    type V = Layer;

    open spec fn view(&self) -> Layer {
        match self {
            Protocol::Ip4(o) => Layer::Ip4(o@),
            Protocol::Ip6(g) => Layer::Ip6(g@),
            Protocol::Udp(p) => Layer::Udp(*p),
            Protocol::QuicV1 => Layer::QuicV1,
        }
    }
}

/// An ordered stack of protocol layers describing how to reach a node.
#[derive(Debug, Clone, PartialEq, Eq)]
pub struct NetworkAddress {
    pub layers: Vec<Protocol>,
}

impl View for NetworkAddress {
    type V = Seq<Layer>;

    open spec fn view(&self) -> Seq<Layer> {
        self.layers@.map_values(|p: Protocol| p@)
    }
}

/// Why an endpoint could not be resolved.
#[derive(Debug, Clone, Copy, PartialEq, Eq, Structural)]
pub enum AddressError {
    /// The endpoint has no `:` separating host and port.
    MalformedEndpoint,
    /// The port is not a decimal number in `0..=65535`.
    InvalidPort,
    /// The host is neither an IPv4 nor an IPv6 literal.
    InvalidIp,
}

/// A port: an optional `+` followed by decimal digits, at most 65535
/// (leading zeros allowed).
pub open spec fn port_of(p: Seq<char>) -> Option<u16> {
    let d = if p.len() > 0 && p[0] == '+' { p.drop_first() } else { p };
    if d.len() > 0 && all_digits(d, 10) && number_value(d, 10) <= 65535 {
        Some(number_value(d, 10) as u16)
    } else {
        None
    }
}

/// A dotted-quad octet: one to three decimal digits, at most 255, and no
/// leading zero unless the octet is `0` itself.
pub open spec fn octet_ok(p: Seq<char>) -> bool {
    &&& 1 <= p.len() <= 3
    &&& all_digits(p, 10)
    &&& number_value(p, 10) <= 255
    &&& (p.len() > 1 ==> p[0] != '0')
}

/// The octets of an IPv4 literal `a.b.c.d`.
pub open spec fn ipv4_of(s: Seq<char>) -> Option<Seq<u8>> {
    let parts = split_on(s, '.');
    if parts.len() == 4 && forall|i: int| 0 <= i < 4 ==> octet_ok(#[trigger] parts[i]) {
        Some(Seq::new(4, |i: int| number_value(parts[i], 10) as u8))
    } else {
        None
    }
}

/// An IPv6 group: one to four hexadecimal digits.
pub open spec fn group_ok(g: Seq<char>) -> bool {
    1 <= g.len() <= 4 && all_digits(g, 16)
}

/// The groups of a `:`-separated run of hexadecimal groups (empty for the
/// empty text).
pub open spec fn groups_of(s: Seq<char>) -> Option<Seq<u16>> {
    let parts = split_on(s, ':');
    if s.len() == 0 {
        Some(Seq::empty())
    } else if forall|i: int| 0 <= i < parts.len() ==> group_ok(#[trigger] parts[i]) {
        Some(Seq::new(parts.len(), |i: int| number_value(parts[i], 16) as u16))
    } else {
        None
    }
}

/// The two groups a dotted IPv4 tail stands for.
pub open spec fn v4_groups(o: Seq<u8>) -> Seq<u16> {
    seq![(o[0] as int * 256 + o[1] as int) as u16, (o[2] as int * 256 + o[3] as int) as u16]
}

/// Like [`groups_of`], but the last piece may also be a dotted IPv4 literal,
/// which stands for two groups.
pub open spec fn groups_with_v4_tail(s: Seq<char>) -> Option<Seq<u16>> {
    let parts = split_on(s, ':');
    let init = parts.drop_last();
    match groups_of(s) {
        Some(g) => Some(g),
        None => match ipv4_of(parts.last()) {
            Some(o) => if forall|i: int| 0 <= i < init.len() ==> group_ok(#[trigger] init[i]) {
                Some(Seq::new(init.len(), |i: int| number_value(init[i], 16) as u16) + v4_groups(o))
            } else {
                None
            },
            None => None,
        },
    }
}

/// Index of the first `::` in `s` at or after `from`, or -1.
pub open spec fn double_colon_from(s: Seq<char>, from: int) -> int
    decreases s.len() - from,
{
    if from < 0 || from + 1 >= s.len() {
        -1
    } else if s[from] == ':' && s[from + 1] == ':' {
        from
    } else {
        double_colon_from(s, from + 1)
    }
}

/// The eight groups of an IPv6 literal: either eight explicit groups, or
/// groups before and after a single `::` that stands for one or more zero
/// groups. The literal may end in a dotted IPv4 address, for its last two
/// groups.
pub open spec fn ipv6_of(s: Seq<char>) -> Option<Seq<u16>> {
    let k = double_colon_from(s, 0);
    if k < 0 {
        match groups_with_v4_tail(s) {
            Some(g) => if g.len() == 8 { Some(g) } else { None },
            None => None,
        }
    } else {
        match (groups_of(s.subrange(0, k)), groups_with_v4_tail(s.subrange(k + 2, s.len() as int))) {
            (Some(h), Some(t)) => if h.len() + t.len() <= 7 {
                Some(h + Seq::new((8 - h.len() - t.len()) as nat, |i: int| 0u16) + t)
            } else {
                None
            },
            _ => None,
        }
    }
}

/// The IP layer for a host: a bracketed IPv6 literal `[..]`, or a bare IPv4
/// or IPv6 literal (IPv4 tried first).
pub open spec fn host_layer(h: Seq<char>) -> Option<Layer> {
    if h.len() >= 2 && h[0] == '[' && h[h.len() - 1] == ']' {
        match ipv6_of(h.subrange(1, h.len() - 1)) {
            Some(g) => Some(Layer::Ip6(g)),
            None => None,
        }
    } else {
        match ipv4_of(h) {
            Some(o) => Some(Layer::Ip4(o)),
            None => match ipv6_of(h) {
                Some(g) => Some(Layer::Ip6(g)),
                None => None,
            },
        }
    }
}

/// The address stack for an endpoint `host:port`, split at the last colon.
/// The errors are checked in order: separator, port, host.
pub open spec fn resolve(s: Seq<char>) -> Result<Seq<Layer>, AddressError> {
    let c = last_index_of(s, ':');
    if c < 0 {
        Err(AddressError::MalformedEndpoint)
    } else {
        match port_of(s.subrange(c + 1, s.len() as int)) {
            None => Err(AddressError::InvalidPort),
            Some(port) => match host_layer(s.subrange(0, c)) {
                None => Err(AddressError::InvalidIp),
                Some(ip) => Ok(seq![ip, Layer::Udp(port), Layer::QuicV1]),
            },
        }
    }
}

/// Length of the run of zero groups of `g` that starts at `i`.
pub open spec fn zero_run(g: Seq<u16>, i: int) -> nat
    decreases g.len() - i,
{
    if i < 0 || i >= g.len() || g[i] != 0 {
        0
    } else {
        1 + zero_run(g, i + 1)
    }
}

/// Start and length of the first longest run of zero groups among the runs
/// that start before `n`.
pub open spec fn longest_zero_run(g: Seq<u16>, n: int) -> (int, nat)
    decreases n,
{
    if n <= 0 {
        (0, 0)
    } else {
        let (b, l) = longest_zero_run(g, n - 1);
        let r = zero_run(g, n - 1);
        if r > l {
            (n - 1, r)
        } else {
            (b, l)
        }
    }
}

pub open spec fn widen16(g: Seq<u16>) -> Seq<u32> {
    g.map_values(|x: u16| x as u32)
}

pub open spec fn widen8(o: Seq<u8>) -> Seq<u32> {
    o.map_values(|x: u8| x as u32)
}

/// IPv6 text: lowercase hexadecimal groups separated by `:`, with the first
/// longest run of two or more zero groups written as `::`.
pub open spec fn ipv6_groups_text(g: Seq<u16>) -> Seq<char> {
    let (b, l) = longest_zero_run(g, g.len() as int);
    let v = nats_of(widen16(g));
    if l >= 2 {
        joined(v.subrange(0, b), 16, ':') + "::"@ + joined(v.subrange(b + l, g.len() as int), 16, ':')
    } else {
        joined(v, 16, ':')
    }
}

/// Whether `g` is an IPv4 address mapped into IPv6 (`::ffff:a.b.c.d`).
pub open spec fn is_v4_mapped(g: Seq<u16>) -> bool {
    &&& g.len() == 8
    &&& g[0] == 0 && g[1] == 0 && g[2] == 0 && g[3] == 0 && g[4] == 0
    &&& g[5] == 0xffff
}

/// The four octets of the IPv4 address in the last two groups of `g`.
pub open spec fn mapped_octets(g: Seq<u16>) -> Seq<nat> {
    seq![
        (g[6] as int / 256) as nat,
        (g[6] as int % 256) as nat,
        (g[7] as int / 256) as nat,
        (g[7] as int % 256) as nat,
    ]
}

/// IPv6 text: an IPv4-mapped address as `::ffff:` and its dotted IPv4
/// address; any other address as lowercase hexadecimal groups separated by
/// `:`, with the first longest run of two or more zero groups written as `::`.
pub open spec fn ipv6_text(g: Seq<u16>) -> Seq<char> {
    if is_v4_mapped(g) {
        "::ffff:"@ + joined(mapped_octets(g), 10, '.')
    } else {
        ipv6_groups_text(g)
    }
}

/// Text of one layer, in the slash-separated multiaddress form.
pub open spec fn layer_text(p: Layer) -> Seq<char> {
    match p {
        Layer::Ip4(o) => "/ip4/"@ + joined(nats_of(widen8(o)), 10, '.'),
        Layer::Ip6(g) => "/ip6/"@ + ipv6_text(g),
        Layer::Udp(port) => "/udp/"@ + number_text(port as nat, 10),
        Layer::QuicV1 => "/quic-v1"@,
    }
}

/// Text of an address stack: the texts of its layers, in order.
pub open spec fn render(s: Seq<Layer>) -> Seq<char>
    decreases s.len(),
{
    if s.len() == 0 {
        Seq::empty()
    } else {
        render(s.drop_last()) + layer_text(s.last())
    }
}

fn widen_u8(o: &Vec<u8>) -> (r: Vec<u32>)
    ensures
        r@ == widen8(o@),
{
    let mut r: Vec<u32> = Vec::new();
    let mut i: usize = 0;
    while i < o.len()
        invariant
            i <= o@.len(),
            r@ == widen8(o@.subrange(0, i as int)),
        decreases o@.len() - i,
    {
        r.push(o[i] as u32);
        assert(widen8(o@.subrange(0, i + 1)) =~= widen8(o@.subrange(0, i as int)).push(o@[i as int] as u32));
        i += 1;
    }
    assert(o@.subrange(0, o@.len() as int) =~= o@);
    r
}

fn widen_u16(g: &Vec<u16>) -> (r: Vec<u32>)
    ensures
        r@ == widen16(g@),
{
    let mut r: Vec<u32> = Vec::new();
    let mut i: usize = 0;
    while i < g.len()
        invariant
            i <= g@.len(),
            r@ == widen16(g@.subrange(0, i as int)),
        decreases g@.len() - i,
    {
        r.push(g[i] as u32);
        assert(widen16(g@.subrange(0, i + 1)) =~= widen16(g@.subrange(0, i as int)).push(g@[i as int] as u32));
        i += 1;
    }
    assert(g@.subrange(0, g@.len() as int) =~= g@);
    r
}

fn zero_run_at(g: &Vec<u16>, i: usize) -> (r: usize)
    requires
        i <= g@.len(),
    ensures
        r == zero_run(g@, i as int),
        i + r <= g@.len(),
{
    let mut j: usize = i;
    while j < g.len() && g[j] == 0
        invariant
            i <= j <= g@.len(),
            zero_run(g@, i as int) == (j - i) + zero_run(g@, j as int),
        decreases g@.len() - j,
    {
        j += 1;
    }
    j - i
}

/// Appends the text of an IPv6 host.
fn push_ipv6(out: &mut String, g: &Vec<u16>)
    ensures
        final(out)@ == old(out)@ + ipv6_text(g@),
{
    if g.len() == 8 && g[0] == 0 && g[1] == 0 && g[2] == 0 && g[3] == 0 && g[4] == 0 && g[5] == 0xffff {
        out.append("::ffff:");
        let a = g[6] as u32;
        let b = g[7] as u32;
        let mut w: Vec<u32> = Vec::new();
        w.push(a / 256);
        w.push(a % 256);
        w.push(b / 256);
        w.push(b % 256);
        assert(nats_of(w@).subrange(0, 4) =~= mapped_octets(g@));
        push_joined(out, &w, 0, 4, 10, '.');
    } else {
        push_ipv6_groups(out, g);
    }
}

fn push_ipv6_groups(out: &mut String, g: &Vec<u16>)
    ensures
        final(out)@ == old(out)@ + ipv6_groups_text(g@),
{
    let mut best: usize = 0;
    let mut best_len: usize = 0;
    let mut i: usize = 0;
    while i < g.len()
        invariant
            i <= g@.len(),
            longest_zero_run(g@, i as int) == (best as int, best_len as nat),
            best + best_len <= g@.len(),
        decreases g@.len() - i,
    {
        let r = zero_run_at(g, i);
        if r > best_len {
            best = i;
            best_len = r;
        }
        i += 1;
    }
    let w = widen_u16(g);
    assert(nats_of(w@).len() == g@.len());
    if best_len >= 2 {
        push_joined(out, &w, 0, best, 16, ':');
        out.append("::");
        push_joined(out, &w, best + best_len, w.len(), 16, ':');
        assert(out@ =~= old(out)@ + ipv6_groups_text(g@));
    } else {
        push_joined(out, &w, 0, w.len(), 16, ':');
        assert(nats_of(w@).subrange(0, w@.len() as int) =~= nats_of(w@));
    }
}

fn push_layer(out: &mut String, p: &Protocol)
    ensures
        final(out)@ == old(out)@ + layer_text(p@),
{
    match p {
        Protocol::Ip4(o) => {
            out.append("/ip4/");
            let w = widen_u8(o);
            push_joined(out, &w, 0, w.len(), 10, '.');
            assert(nats_of(w@).subrange(0, w@.len() as int) =~= nats_of(w@));
        },
        Protocol::Ip6(g) => {
            out.append("/ip6/");
            push_ipv6(out, g);
        },
        Protocol::Udp(port) => {
            out.append("/udp/");
            push_number(out, *port as u32, 10);
        },
        Protocol::QuicV1 => {
            out.append("/quic-v1");
        },
    }
}

impl NetworkAddress {
    /// The address in its slash-separated text form, for example
    /// `/ip4/127.0.0.1/udp/8082/quic-v1`.
    pub fn to_string(&self) -> (r: String)
        ensures
            r@ == render(self@),
    {
        let mut out = String::new();
        let mut i: usize = 0;
        while i < self.layers.len()
            invariant
                i <= self.layers@.len(),
                out@ == render(self@.subrange(0, i as int)),
            decreases self.layers@.len() - i,
        {
            push_layer(&mut out, &self.layers[i]);
            assert(self@.subrange(0, i + 1).drop_last() =~= self@.subrange(0, i as int));
            i += 1;
        }
        assert(self@.subrange(0, self@.len() as int) =~= self@);
        out
    }
}

proof fn lemma_absent_no_index(s: Seq<char>, c: char)
    requires
        !s.contains(c),
    ensures
        last_index_of(s, c) == -1,
    decreases s.len(),
{
    if s.len() > 0 {
        assert(s.last() == s[s.len() - 1]);
        assert(!s.drop_last().contains(c)) by {
            if s.drop_last().contains(c) {
                let i = choose|i: int| 0 <= i < s.drop_last().len() && s.drop_last()[i] == c;
                assert(s[i] == c);
            }
        }
        lemma_absent_no_index(s.drop_last(), c);
    }
}

proof fn lemma_last_colon(h: Seq<char>, p: Seq<char>)
    requires
        !p.contains(':'),
    ensures
        last_index_of(h + seq![':'] + p, ':') == h.len(),
        (h + seq![':'] + p).subrange(0, h.len() as int) == h,
        (h + seq![':'] + p).subrange(h.len() as int + 1, (h + seq![':'] + p).len() as int) == p,
    decreases p.len(),
{
    let s = h + seq![':'] + p;
    assert(s.subrange(0, h.len() as int) =~= h);
    assert(s.subrange(h.len() as int + 1, s.len() as int) =~= p);
    if p.len() > 0 {
        let q = p.drop_last();
        assert(p[p.len() - 1] != ':');
        assert(!q.contains(':')) by {
            if q.contains(':') {
                let i = choose|i: int| 0 <= i < q.len() && q[i] == ':';
                assert(p[i] == ':');
            }
        }
        lemma_last_colon(h, q);
        assert(s.drop_last() =~= h + seq![':'] + q);
    }
}

proof fn lemma_render_stack(a: Layer, b: Layer, c: Layer)
    ensures
        render(seq![a, b, c]) == layer_text(a) + layer_text(b) + layer_text(c),
{
    let s = seq![a, b, c];
    assert(s.drop_last() =~= seq![a, b]);
    assert(seq![a, b].drop_last() =~= seq![a]);
    assert(seq![a].drop_last() =~= Seq::<Layer>::empty());
    assert(render(Seq::<Layer>::empty()) == Seq::<char>::empty());
    assert(Seq::<char>::empty() + layer_text(a) =~= layer_text(a));
    assert(render(seq![a]) == layer_text(a));
    assert(render(seq![a, b]) == layer_text(a) + layer_text(b));
    assert(s.last() == c);
}

proof fn lemma_join_first(parts: Seq<Seq<char>>, sep: char)
    requires
        parts.len() >= 1,
        parts[0].len() > 0,
    ensures
        join_parts(parts, sep).len() > 0,
        join_parts(parts, sep)[0] == parts[0][0],
    decreases parts.len(),
{
    if parts.len() > 1 {
        lemma_join_first(parts.drop_last(), sep);
    }
}

/// An endpoint without a colon is rejected as malformed.
pub proof fn law_endpoint_without_colon_rejected(s: Seq<char>)
    requires
        !s.contains(':'),
    ensures
        resolve(s) == Err::<Seq<Layer>, AddressError>(AddressError::MalformedEndpoint),
{
    lemma_absent_no_index(s, ':');
}

/// After the last colon, a port that is not a decimal number in
/// `0..=65535` is rejected; with a valid port, a host that is neither an
/// IPv4 nor an IPv6 literal is rejected. Resolution has no other effect.
pub proof fn law_bad_port_or_host_rejected(host: Seq<char>, port: Seq<char>)
    requires
        !port.contains(':'),
    ensures
        port_of(port) is None ==> resolve(host + seq![':'] + port)
            == Err::<Seq<Layer>, AddressError>(AddressError::InvalidPort),
        port_of(port) is Some && host_layer(host) is None ==> resolve(host + seq![':'] + port)
            == Err::<Seq<Layer>, AddressError>(AddressError::InvalidIp),
{
    lemma_last_colon(host, port);
}

/// A valid endpoint resolves to its IP layer, its UDP port and the QUIC
/// transport, and renders as the texts of those three layers in order.
pub proof fn law_resolved_endpoint_renders(host: Seq<char>, port: Seq<char>)
    requires
        !port.contains(':'),
        host_layer(host) is Some,
        port_of(port) is Some,
    ensures
        resolve(host + seq![':'] + port) == Ok::<Seq<Layer>, AddressError>(
            seq![host_layer(host)->Some_0, Layer::Udp(port_of(port)->Some_0), Layer::QuicV1],
        ),
        render(seq![host_layer(host)->Some_0, Layer::Udp(port_of(port)->Some_0), Layer::QuicV1])
            == layer_text(host_layer(host)->Some_0) + "/udp/"@ + number_text(
            port_of(port)->Some_0 as nat,
            10,
        ) + "/quic-v1"@,
{
    lemma_last_colon(host, port);
    lemma_render_stack(host_layer(host)->Some_0, Layer::Udp(port_of(port)->Some_0), Layer::QuicV1);
}

proof fn lemma_canonical_port(port: Seq<char>)
    requires
        canonical_decimal(port),
        number_value(port, 10) <= 65535,
    ensures
        port_of(port) == Some(number_value(port, 10) as u16),
        number_text(number_value(port, 10) as u16 as nat, 10) == port,
{
    lemma_decimal_text(port);
    assert(digit_value(port[0], 10) >= 0);
}

/// An IPv4 endpoint whose port is written without leading zeros renders
/// as `/ip4/<host>/udp/<port>/quic-v1`, with the host and port texts as
/// given.
pub proof fn law_ipv4_endpoint_round_trip(host: Seq<char>, port: Seq<char>)
    requires
        ipv4_of(host) is Some,
        canonical_decimal(port),
        number_value(port, 10) <= 65535,
    ensures
        resolve(host + seq![':'] + port) is Ok,
        render(resolve(host + seq![':'] + port)->Ok_0) == "/ip4/"@ + host + "/udp/"@ + port + "/quic-v1"@,
{
    lemma_canonical_port(port);
    assert(!port.contains(':')) by {
        if port.contains(':') {
            let i = choose|i: int| 0 <= i < port.len() && port[i] == ':';
            assert(digit_value(port[i], 10) >= 0);
        }
    }
    let parts = split_on(host, '.');
    let o = ipv4_of(host)->Some_0;
    assert(octet_ok(parts[0]));
    assert(digit_value(parts[0][0], 10) >= 0);
    lemma_join_split(host, '.');
    lemma_join_first(parts, '.');
    assert(host[0] != '[');
    assert(host_layer(host) == Some(Layer::Ip4(o)));
    law_resolved_endpoint_renders(host, port);
    let v = nats_of(widen8(o));
    assert forall|i: int| 0 <= i < v.len() implies number_text(#[trigger] v[i], 10) == parts[i] by {
        assert(octet_ok(parts[i]));
        lemma_decimal_text(parts[i]);
        assert(v[i] == number_value(parts[i], 10));
    }
    lemma_joined_parts(v, parts, 10, '.');
}

/// A bracketed IPv6 endpoint whose literal is in its shortest form and
/// whose port is written without leading zeros renders as
/// `/ip6/<literal>/udp/<port>/quic-v1`.
pub proof fn law_ipv6_endpoint_round_trip(literal: Seq<char>, port: Seq<char>)
    requires
        ipv6_of(literal) is Some,
        ipv6_text(ipv6_of(literal)->Some_0) == literal,
        canonical_decimal(port),
        number_value(port, 10) <= 65535,
    ensures
        resolve(seq!['['] + literal + seq![']'] + seq![':'] + port) is Ok,
        render(resolve(seq!['['] + literal + seq![']'] + seq![':'] + port)->Ok_0)
            == "/ip6/"@ + literal + "/udp/"@ + port + "/quic-v1"@,
{
    lemma_canonical_port(port);
    assert(!port.contains(':')) by {
        if port.contains(':') {
            let i = choose|i: int| 0 <= i < port.len() && port[i] == ':';
            assert(digit_value(port[i], 10) >= 0);
        }
    }
    let host = seq!['['] + literal + seq![']'];
    assert(host.subrange(1, host.len() - 1) =~= literal);
    assert(host_layer(host) == Some(Layer::Ip6(ipv6_of(literal)->Some_0)));
    law_resolved_endpoint_renders(host, port);
}

fn parse_port(p: &Vec<char>) -> (r: Option<u16>)
    ensures
        r == port_of(p@),
{
    let d = if p.len() > 0 && p[0] == '+' {
        copy_range(p, 1, p.len())
    } else {
        copy_range(p, 0, p.len())
    };
    assert(p@.drop_first() =~= p@.subrange(1, p@.len() as int));
    assert(p@ =~= p@.subrange(0, p@.len() as int));
    match parse_number(&d, 10, 65535) {
        Some(v) => Some(v as u16),
        None => None,
    }
}

fn parse_octet(p: &Vec<char>) -> (r: Option<u8>)
    ensures
        r is Some <==> octet_ok(p@),
        r matches Some(v) ==> v == number_value(p@, 10),
{
    if p.len() < 1 || p.len() > 3 || (p.len() > 1 && p[0] == '0') {
        return None;
    }
    match parse_number(p, 10, 255) {
        Some(v) => Some(v as u8),
        None => None,
    }
}

fn parse_ipv4(s: &Vec<char>) -> (r: Option<Vec<u8>>)
    ensures
        r is Some <==> ipv4_of(s@) is Some,
        r matches Some(o) ==> ipv4_of(s@) == Some(o@),
{
    let parts = split_chars(s, '.');
    let ghost sp = split_on(s@, '.');
    if parts.len() != 4 {
        return None;
    }
    let mut octets: Vec<u8> = Vec::new();
    let mut i: usize = 0;
    while i < 4
        invariant
            parts@.len() == 4,
            sp == split_on(s@, '.'),
            sp.len() == 4,
            forall|j: int| 0 <= j < 4 ==> (#[trigger] parts@[j])@ == sp[j],
            i <= 4,
            octets@.len() == i,
            forall|j: int| 0 <= j < i ==> octet_ok(#[trigger] sp[j]),
            forall|j: int| 0 <= j < i ==> #[trigger] octets@[j] == number_value(sp[j], 10) as u8,
        decreases 4 - i,
    {
        match parse_octet(&parts[i]) {
            None => {
                assert(!octet_ok(sp[i as int]));
                return None;
            },
            Some(v) => {
                octets.push(v);
            },
        }
        i += 1;
    }
    assert(octets@ =~= Seq::new(4, |j: int| number_value(sp[j], 10) as u8));
    Some(octets)
}

fn parse_groups(s: &Vec<char>) -> (r: Option<Vec<u16>>)
    ensures
        r is Some <==> groups_of(s@) is Some,
        r matches Some(g) ==> groups_of(s@) == Some(g@),
{
    if s.len() == 0 {
        let v: Vec<u16> = Vec::new();
        assert(v@ =~= Seq::<u16>::empty());
        return Some(v);
    }
    let parts = split_chars(s, ':');
    let ghost sp = split_on(s@, ':');
    let mut groups: Vec<u16> = Vec::new();
    let mut i: usize = 0;
    while i < parts.len()
        invariant
            parts@.len() == sp.len(),
            sp == split_on(s@, ':'),
            s@.len() > 0,
            forall|j: int| 0 <= j < sp.len() ==> (#[trigger] parts@[j])@ == sp[j],
            i <= parts@.len(),
            groups@.len() == i,
            forall|j: int| 0 <= j < i ==> group_ok(#[trigger] sp[j]),
            forall|j: int| 0 <= j < i ==> #[trigger] groups@[j] == number_value(sp[j], 16) as u16,
        decreases parts@.len() - i,
    {
        let part = &parts[i];
        if part.len() < 1 || part.len() > 4 {
            assert(!group_ok(sp[i as int]));
            return None;
        }
        match parse_number(part, 16, 0xffff) {
            None => {
                proof {
                    if all_digits(sp[i as int], 16) {
                        lemma_four_hex_digits(sp[i as int]);
                    }
                }
                assert(!group_ok(sp[i as int]));
                return None;
            },
            Some(v) => {
                groups.push(v as u16);
            },
        }
        i += 1;
    }
    assert(groups@ =~= Seq::new(sp.len(), |j: int| number_value(sp[j], 16) as u16));
    Some(groups)
}

fn parse_groups_v4(s: &Vec<char>) -> (r: Option<Vec<u16>>)
    ensures
        r is Some <==> groups_with_v4_tail(s@) is Some,
        r matches Some(g) ==> groups_with_v4_tail(s@) == Some(g@),
{
    if let Some(g) = parse_groups(s) {
        return Some(g);
    }
    let parts = split_chars(s, ':');
    let ghost sp = split_on(s@, ':');
    let ghost init = sp.drop_last();
    proof {
        crate::text::lemma_split_nonempty(s@, ':');
    }
    let n = parts.len();
    let o = match parse_ipv4(&parts[n - 1]) {
        Some(o) => o,
        None => {
            return None;
        },
    };
    let mut groups: Vec<u16> = Vec::new();
    let mut i: usize = 0;
    while i < n - 1
        invariant
            n == parts@.len(),
            n >= 1,
            parts@.len() == sp.len(),
            sp == split_on(s@, ':'),
            init == sp.drop_last(),
            forall|j: int| 0 <= j < sp.len() ==> (#[trigger] parts@[j])@ == sp[j],
            i <= n - 1,
            groups@.len() == i,
            forall|j: int| 0 <= j < i ==> group_ok(#[trigger] init[j]),
            forall|j: int| 0 <= j < i ==> #[trigger] groups@[j] == number_value(init[j], 16) as u16,
        decreases n - 1 - i,
    {
        let part = &parts[i];
        assert(part@ == init[i as int]);
        if part.len() < 1 || part.len() > 4 {
            return None;
        }
        match parse_number(part, 16, 0xffff) {
            None => {
                proof {
                    if all_digits(init[i as int], 16) {
                        lemma_four_hex_digits(init[i as int]);
                    }
                }
                return None;
            },
            Some(v) => {
                groups.push(v as u16);
            },
        }
        i += 1;
    }
    let ghost gv = groups@;
    assert(gv =~= Seq::new(init.len(), |j: int| number_value(init[j], 16) as u16));
    let hi = (o[0] as u16) * 256 + (o[1] as u16);
    let lo = (o[2] as u16) * 256 + (o[3] as u16);
    groups.push(hi);
    groups.push(lo);
    assert(groups@ =~= gv + v4_groups(o@));
    Some(groups)
}

/// At most four hexadecimal digits fit in 16 bits.
proof fn lemma_four_hex_digits(g: Seq<char>)
    requires
        g.len() <= 4,
        all_digits(g, 16),
    ensures
        0 <= number_value(g, 16) < pow16(g.len()),
        number_value(g, 16) <= 0xffff,
    decreases g.len(),
{
    if g.len() > 0 {
        let p = g.drop_last();
        assert(all_digits(p, 16)) by {
            assert forall|j: int| 0 <= j < p.len() implies digit_value(#[trigger] p[j], 16) >= 0 by {
                assert(p[j] == g[j]);
            }
        }
        lemma_four_hex_digits(p);
        let d = digit_value(g[g.len() - 1], 16);
        assert(0 <= d < 16);
        let v = number_value(p, 16);
        let q = pow16(p.len());
        assert(v * 16 + d < q * 16) by (nonlinear_arith)
            requires
                0 <= v < q,
                0 <= d < 16,
        ;
        assert(0 <= v * 16) by (nonlinear_arith)
            requires
                0 <= v,
        ;
    }
    reveal_with_fuel(pow16, 5);
    assert(pow16(g.len()) <= 65536) by {
        assert(pow16(0) == 1);
        assert(pow16(4) == 65536);
        assert(pow16(1) == 16);
        assert(pow16(2) == 256);
        assert(pow16(3) == 4096);
    }
}

spec fn pow16(n: nat) -> int
    decreases n,
{
    if n == 0 {
        1
    } else {
        16 * pow16((n - 1) as nat)
    }
}

fn find_double_colon(s: &Vec<char>) -> (r: Option<usize>)
    ensures
        r is None <==> double_colon_from(s@, 0) == -1,
        r matches Some(k) ==> k == double_colon_from(s@, 0) && k + 1 < s@.len(),
{
    let mut i: usize = 0;
    while s.len() > 0 && i < s.len() - 1
        invariant
            i <= s@.len(),
            double_colon_from(s@, 0) == double_colon_from(s@, i as int),
        decreases s@.len() - i,
    {
        if s[i] == ':' && s[i + 1] == ':' {
            return Some(i);
        }
        i += 1;
    }
    None
}

fn parse_ipv6(s: &Vec<char>) -> (r: Option<Vec<u16>>)
    ensures
        r is Some <==> ipv6_of(s@) is Some,
        r matches Some(g) ==> ipv6_of(s@) == Some(g@),
{
    match find_double_colon(s) {
        None => {
            match parse_groups_v4(s) {
                Some(g) => if g.len() == 8 {
                    Some(g)
                } else {
                    None
                },
                None => None,
            }
        },
        Some(k) => {
            let n = s.len();
            let head = copy_range(s, 0, k);
            let tail = copy_range(s, k + 2, n);
            match (parse_groups(&head), parse_groups_v4(&tail)) {
                (Some(h), Some(t)) => {
                    if h.len() > 7 || t.len() > 7 - h.len() {
                        return None;
                    }
                    let mut out = h;
                    let ghost hv = out@;
                    let zeros: usize = 8 - out.len() - t.len();
                    let mut i: usize = 0;
                    while i < zeros
                        invariant
                            i <= zeros,
                            out@ == hv + Seq::new(i as nat, |j: int| 0u16),
                        decreases zeros - i,
                    {
                        out.push(0);
                        assert(out@ =~= hv + Seq::new((i + 1) as nat, |j: int| 0u16));
                        i += 1;
                    }
                    let mut j: usize = 0;
                    while j < t.len()
                        invariant
                            j <= t@.len(),
                            out@ == hv + Seq::new(zeros as nat, |j: int| 0u16) + t@.subrange(0, j as int),
                        decreases t@.len() - j,
                    {
                        out.push(t[j]);
                        assert(t@.subrange(0, j + 1) =~= t@.subrange(0, j as int).push(t@[j as int]));
                        j += 1;
                    }
                    assert(t@.subrange(0, t@.len() as int) =~= t@);
                    Some(out)
                },
                _ => None,
            }
        },
    }
}

fn parse_host(h: &Vec<char>) -> (r: Option<Protocol>)
    ensures
        r is Some <==> host_layer(h@) is Some,
        r matches Some(p) ==> host_layer(h@) == Some(p@),
{
    if h.len() >= 2 && h[0] == '[' && h[h.len() - 1] == ']' {
        let inner = copy_range(h, 1, h.len() - 1);
        match parse_ipv6(&inner) {
            Some(g) => Some(Protocol::Ip6(g)),
            None => None,
        }
    } else {
        match parse_ipv4(h) {
            Some(o) => Some(Protocol::Ip4(o)),
            None => match parse_ipv6(h) {
                Some(g) => Some(Protocol::Ip6(g)),
                None => None,
            },
        }
    }
}

/// Resolves a `host:port` endpoint into `ip / udp(port) / quic-v1`.
///
/// The text is split at its last colon; the port must be a decimal number
/// in `0..=65535` and the host an IPv4 literal, an IPv6 literal, or a
/// bracketed IPv6 literal. No input is rejected silently: each failure is
/// one [`AddressError`].
pub fn parse_listen_address(addr_str: &str) -> (r: Result<NetworkAddress, AddressError>)
    ensures
        r is Ok <==> resolve(addr_str@) is Ok,
        r matches Ok(a) ==> resolve(addr_str@) == Ok::<Seq<Layer>, AddressError>(a@),
        r matches Err(e) ==> resolve(addr_str@) == Err::<Seq<Layer>, AddressError>(e),
{
    let s = chars_of(addr_str);
    match find_last(&s, ':') {
        None => Err(AddressError::MalformedEndpoint),
        Some(c) => {
            let port_text = copy_range(&s, c + 1, s.len());
            match parse_port(&port_text) {
                None => Err(AddressError::InvalidPort),
                Some(port) => {
                    let host = copy_range(&s, 0, c);
                    match parse_host(&host) {
                        None => Err(AddressError::InvalidIp),
                        Some(ip) => {
                            let ghost ipv = ip@;
                            let layers = vec![ip, Protocol::Udp(port), Protocol::QuicV1];
                            let a = NetworkAddress { layers };
                            assert(a@ =~= seq![ipv, Layer::Udp(port), Layer::QuicV1]);
                            Ok(a)
                        },
                    }
                },
            }
        },
    }
}

} // verus!
