//! The wire format: little-endian integers, length-prefixed UTF-8 text,
//! the tagged encoding of requests and responses, and the frame that
//! carries one payload over a stream.
use crate::commands::{CmdLatest, CmdList, CmdOnce, CmdPing, CmdStatus, Command, CommandView};
use crate::commands::texts_view;
use crate::{Request, RequestView, Response};
use vstd::prelude::*;
use vstd::slice::slice_subrange;
use vstd::utf8::{decode_utf8, encode_utf8, encode_utf8_decode_utf8, valid_utf8};
use vstd::utf8::decode_utf8_encode_utf8;

verus! {

/// `256` raised to the power `k`.
pub open spec fn pow256(k: nat) -> nat
    decreases k,
{
    if k == 0 {
        1
    } else {
        256 * pow256((k - 1) as nat)
    }
}

/// The `k` low bytes of `n`, least significant first.
pub open spec fn le_bytes(n: nat, k: nat) -> Seq<u8>
    decreases k,
{
    if k == 0 {
        Seq::empty()
    } else {
        seq![(n % 256) as u8] + le_bytes(n / 256, (k - 1) as nat)
    }
}

/// The number that the bytes of `b` spell, least significant first.
pub open spec fn le_value(b: Seq<u8>) -> nat
    decreases b.len(),
{
    if b.len() == 0 {
        0
    } else {
        b[0] as nat + 256 * le_value(b.drop_first())
    }
}

pub proof fn lemma_le_bytes_len(n: nat, k: nat)
    ensures
        le_bytes(n, k).len() == k,
    decreases k,
{
    if k > 0 {
        lemma_le_bytes_len(n / 256, (k - 1) as nat);
    }
}

pub proof fn lemma_le_value_bound(b: Seq<u8>)
    ensures
        le_value(b) < pow256(b.len()),
    decreases b.len(),
{
    if b.len() > 0 {
        let rest = b.drop_first();
        lemma_le_value_bound(rest);
        let v = le_value(rest);
        let p = pow256(rest.len());
        assert(b[0] as nat + 256 * v < 256 * p) by (nonlinear_arith)
            requires
                v < p,
                b[0] < 256,
        ;
    }
}

/// Reading back `k` bytes written from `n` gives `n`, for `n` below `256^k`.
pub proof fn lemma_le_value_of_bytes(n: nat, k: nat)
    requires
        n < pow256(k),
    ensures
        le_value(le_bytes(n, k)) == n,
    decreases k,
{
    if k > 0 {
        let b = le_bytes(n, k);
        let p = pow256((k - 1) as nat);
        assert(n / 256 < p) by (nonlinear_arith)
            requires
                n < 256 * p,
        ;
        lemma_le_value_of_bytes(n / 256, (k - 1) as nat);
        assert(b.drop_first() =~= le_bytes(n / 256, (k - 1) as nat));
        assert(b[0] == (n % 256) as u8);
    }
}

/// Writing back the value of `b` in as many bytes gives `b`.
pub proof fn lemma_le_bytes_of_value(b: Seq<u8>)
    ensures
        le_bytes(le_value(b), b.len()) == b,
    decreases b.len(),
{
    if b.len() > 0 {
        let rest = b.drop_first();
        lemma_le_bytes_of_value(rest);
        let v = le_value(b);
        assert(v % 256 == b[0] as nat && v / 256 == le_value(rest)) by (nonlinear_arith)
            requires
                v == b[0] as nat + 256 * le_value(rest),
                b[0] < 256,
        ;
        assert(le_bytes(v, b.len()) =~= b);
    }
}

pub proof fn lemma_pow256_facts()
    ensures
        pow256(4) == 0x1_0000_0000,
        pow256(8) == 0x1_0000_0000_0000_0000,
{
    reveal_with_fuel(pow256, 9);
}

/// Appends the `k` low bytes of `n` to `out`, least significant first.
fn push_le(out: &mut Vec<u8>, n: u64, k: usize)
    requires
        k <= 8,
    ensures
        final(out)@ == old(out)@ + le_bytes(n as nat, k as nat),
{
    let mut m: u64 = n;
    let mut i: usize = 0;
    while i < k
        invariant
            i <= k,
            out@ + le_bytes(m as nat, (k - i) as nat) == old(out)@ + le_bytes(n as nat, k as nat),
        decreases k - i,
    {
        let ghost before = out@;
        out.push((m % 256) as u8);
        proof {
            let rest = le_bytes((m / 256) as nat, (k - i - 1) as nat);
            assert(le_bytes(m as nat, (k - i) as nat) == seq![(m % 256) as u8] + rest);
            assert(before + (seq![(m % 256) as u8] + rest) =~= out@ + rest);
        }
        m = m / 256;
        i = i + 1;
    }
    assert(out@ =~= old(out)@ + le_bytes(n as nat, k as nat));
}

/// The value of the `k` bytes of `b` that start at `pos`.
fn read_le(b: &[u8], pos: usize, k: usize) -> (r: u64)
    requires
        k <= 8,
        pos + k <= b@.len(),
    ensures
        r as nat == le_value(b@.subrange(pos as int, pos + k)),
{
    let ghost s = b@.subrange(pos as int, pos + k);
    let len = b.len();
    let mut v: u64 = 0;
    let mut i: usize = k;
    proof {
        lemma_pow256_facts();
        assert(s.subrange(k as int, k as int) =~= Seq::<u8>::empty());
    }
    while i > 0
        invariant
            i <= k <= 8,
            pos + k <= b@.len(),
            len == b@.len(),
            s == b@.subrange(pos as int, pos + k),
            v as nat == le_value(s.subrange(i as int, k as int)),
            pow256(8) == 0x1_0000_0000_0000_0000,
        decreases i,
    {
        let ghost tail = s.subrange(i as int, k as int);
        let ghost longer = s.subrange(i - 1, k as int);
        proof {
            assert(longer.drop_first() =~= tail);
            lemma_le_value_bound(longer);
            lemma_pow_mono(longer.len(), 8);
        }
        let byte = b[pos + i - 1];
        assert(byte == longer[0]);
        v = v * 256 + byte as u64;
        i = i - 1;
    }
    assert(s.subrange(0, k as int) =~= s);
    v
}

proof fn lemma_pow_mono(a: nat, b: nat)
    requires
        a <= b,
    ensures
        pow256(a) <= pow256(b),
    decreases b,
{
    if a < b {
        lemma_pow_mono(a, (b - 1) as nat);
    }
}

/// `t` as an unsigned 64-bit pattern (two's complement).
pub open spec fn twos(t: i64) -> nat {
    if t >= 0 {
        t as nat
    } else {
        (t + 0x1_0000_0000_0000_0000) as nat
    }
}

/// The signed number whose two's complement pattern is `u`.
pub open spec fn from_twos(u: nat) -> i64 {
    if u < 0x8000_0000_0000_0000 {
        u as i64
    } else {
        (u - 0x1_0000_0000_0000_0000) as i64
    }
}

/// A text on the wire: its UTF-8 length in eight bytes, then its UTF-8 bytes.
pub open spec fn text_bytes(t: Seq<char>) -> Seq<u8> {
    le_bytes(encode_utf8(t).len(), 8) + encode_utf8(t)
}

/// Several texts, one after the other.
pub open spec fn items_bytes(ts: Seq<Seq<char>>) -> Seq<u8>
    decreases ts.len(),
{
    if ts.len() == 0 {
        Seq::empty()
    } else {
        items_bytes(ts.drop_last()) + text_bytes(ts.last())
    }
}

/// The tag of each kind of command.
pub open spec fn command_tag(c: CommandView) -> nat {
    match c {
        CommandView::Once { .. } => 0,
        CommandView::Latest => 1,
        CommandView::Ping => 2,
        CommandView::Status { .. } => 3,
        CommandView::List => 4,
    }
}

/// A command on the wire: its tag in four bytes, then its fields.
pub open spec fn command_bytes(c: CommandView) -> Seq<u8> {
    le_bytes(command_tag(c), 4) + match c {
        CommandView::Once { program, args } => text_bytes(program) + le_bytes(args.len(), 8)
            + items_bytes(args),
        CommandView::Status { pid } => le_bytes(pid as nat, 4),
        _ => Seq::empty(),
    }
}

/// A request on the wire: its command, then its time in eight bytes.
pub open spec fn request_bytes(r: RequestView) -> Seq<u8> {
    command_bytes(r.command) + le_bytes(twos(r.time), 8)
}

/// A response on the wire: its message as a text.
pub open spec fn response_bytes(m: Seq<char>) -> Seq<u8> {
    text_bytes(m)
}

/// A text fits the format when its UTF-8 length fits in eight bytes.
pub open spec fn text_fits(t: Seq<char>) -> bool {
    encode_utf8(t).len() < pow256(8)
}

/// A command fits the format when its lengths fit their eight bytes.
pub open spec fn command_fits(c: CommandView) -> bool {
    match c {
        CommandView::Once { program, args } => text_fits(program) && args.len() < pow256(8)
            && forall|i: int| 0 <= i < args.len() ==> text_fits(#[trigger] args[i]),
        _ => true,
    }
}

/// An unsigned number in `k` bytes, and what follows it.
pub open spec fn parse_uint(b: Seq<u8>, k: nat) -> Option<(nat, Seq<u8>)> {
    if b.len() >= k {
        Some((le_value(b.take(k as int)), b.skip(k as int)))
    } else {
        None
    }
}

/// A text, and what follows it.
pub open spec fn parse_text(b: Seq<u8>) -> Option<(Seq<char>, Seq<u8>)> {
    match parse_uint(b, 8) {
        Some((n, rest)) => if n <= rest.len() && valid_utf8(rest.take(n as int)) {
            Some((decode_utf8(rest.take(n as int)), rest.skip(n as int)))
        } else {
            None
        },
        None => None,
    }
}

/// `n` texts, and what follows them.
pub open spec fn parse_items(b: Seq<u8>, n: nat) -> Option<(Seq<Seq<char>>, Seq<u8>)>
    decreases n,
{
    if n == 0 {
        Some((Seq::empty(), b))
    } else {
        match parse_items(b, (n - 1) as nat) {
            Some((ts, rest)) => match parse_text(rest) {
                Some((t, rest2)) => Some((ts.push(t), rest2)),
                None => None,
            },
            None => None,
        }
    }
}

/// A command, and what follows it.
pub open spec fn parse_command(b: Seq<u8>) -> Option<(CommandView, Seq<u8>)> {
    match parse_uint(b, 4) {
        Some((tag, rest)) => if tag == 0 {
            match parse_text(rest) {
                Some((program, rest2)) => match parse_uint(rest2, 8) {
                    Some((n, rest3)) => match parse_items(rest3, n) {
                        Some((args, rest4)) => Some(
                            (CommandView::Once { program, args }, rest4),
                        ),
                        None => None,
                    },
                    None => None,
                },
                None => None,
            }
        } else if tag == 1 {
            Some((CommandView::Latest, rest))
        } else if tag == 2 {
            Some((CommandView::Ping, rest))
        } else if tag == 3 {
            match parse_uint(rest, 4) {
                Some((pid, rest2)) => Some((CommandView::Status { pid: pid as u32 }, rest2)),
                None => None,
            }
        } else if tag == 4 {
            Some((CommandView::List, rest))
        } else {
            None
        },
        None => None,
    }
}

/// The request that `b` holds, when it holds exactly one.
pub open spec fn parse_request(b: Seq<u8>) -> Option<RequestView> {
    match parse_command(b) {
        Some((command, rest)) => match parse_uint(rest, 8) {
            Some((t, rest2)) => if rest2.len() == 0 {
                Some(RequestView { command, time: from_twos(t) })
            } else {
                None
            },
            None => None,
        },
        None => None,
    }
}

/// The message of the response that `b` holds, when it holds exactly one.
pub open spec fn parse_response(b: Seq<u8>) -> Option<Seq<char>> {
    match parse_text(b) {
        Some((m, rest)) => if rest.len() == 0 {
            Some(m)
        } else {
            None
        },
        None => None,
    }
}

proof fn lemma_parse_uint(n: nat, k: nat, tail: Seq<u8>)
    requires
        n < pow256(k),
    ensures
        parse_uint(le_bytes(n, k) + tail, k) == Some((n, tail)),
{
    let b = le_bytes(n, k) + tail;
    lemma_le_bytes_len(n, k);
    assert(b.take(k as int) =~= le_bytes(n, k));
    assert(b.skip(k as int) =~= tail);
    lemma_le_value_of_bytes(n, k);
}

proof fn lemma_parse_uint_back(b: Seq<u8>, k: nat)
    requires
        parse_uint(b, k) is Some,
    ensures
        ({
            let (n, rest) = parse_uint(b, k)->0;
            &&& le_bytes(n, k) + rest == b
            &&& n < pow256(k)
        }),
{
    let head = b.take(k as int);
    lemma_le_bytes_of_value(head);
    lemma_le_value_bound(head);
    assert(head + b.skip(k as int) =~= b);
}

proof fn lemma_parse_text(t: Seq<char>, tail: Seq<u8>)
    requires
        text_fits(t),
    ensures
        parse_text(text_bytes(t) + tail) == Some((t, tail)),
{
    let e = encode_utf8(t);
    let b = text_bytes(t) + tail;
    assert(b =~= le_bytes(e.len(), 8) + (e + tail));
    lemma_parse_uint(e.len(), 8, e + tail);
    assert((e + tail).take(e.len() as int) =~= e);
    assert((e + tail).skip(e.len() as int) =~= tail);
    broadcast use vstd::utf8::encode_utf8_valid_utf8;
    encode_utf8_decode_utf8(t);
}

proof fn lemma_parse_text_back(b: Seq<u8>)
    requires
        parse_text(b) is Some,
    ensures
        ({
            let (t, rest) = parse_text(b)->0;
            &&& text_bytes(t) + rest == b
            &&& text_fits(t)
        }),
{
    lemma_parse_uint_back(b, 8);
    let (n, rest) = parse_uint(b, 8)->0;
    let e = rest.take(n as int);
    decode_utf8_encode_utf8(e);
    assert(e + rest.skip(n as int) =~= rest);
    assert(text_bytes(decode_utf8(e)) + rest.skip(n as int) =~= le_bytes(n, 8) + rest);
}

proof fn lemma_parse_items(ts: Seq<Seq<char>>, tail: Seq<u8>)
    requires
        forall|i: int| 0 <= i < ts.len() ==> text_fits(#[trigger] ts[i]),
    ensures
        parse_items(items_bytes(ts) + tail, ts.len()) == Some((ts, tail)),
    decreases ts.len(),
{
    if ts.len() > 0 {
        let init = ts.drop_last();
        let rest = text_bytes(ts.last()) + tail;
        assert(items_bytes(ts) + tail =~= items_bytes(init) + rest);
        assert forall|i: int| 0 <= i < init.len() implies text_fits(#[trigger] init[i]) by {
            assert(init[i] == ts[i]);
        }
        lemma_parse_items(init, rest);
        assert(text_fits(ts[ts.len() - 1]));
        lemma_parse_text(ts.last(), tail);
        assert(init.push(ts.last()) =~= ts);
    }
}

proof fn lemma_parse_items_back(b: Seq<u8>, n: nat)
    requires
        parse_items(b, n) is Some,
    ensures
        ({
            let (ts, rest) = parse_items(b, n)->0;
            &&& items_bytes(ts) + rest == b
            &&& ts.len() == n
            &&& forall|i: int| 0 <= i < ts.len() ==> text_fits(#[trigger] ts[i])
        }),
    decreases n,
{
    if n > 0 {
        lemma_parse_items_back(b, (n - 1) as nat);
        let (init, rest) = parse_items(b, (n - 1) as nat)->0;
        lemma_parse_text_back(rest);
        let (t, rest2) = parse_text(rest)->0;
        let ts = init.push(t);
        assert(ts.drop_last() =~= init);
        assert(items_bytes(ts) + rest2 =~= items_bytes(init) + (text_bytes(t) + rest2));
        assert forall|i: int| 0 <= i < ts.len() implies text_fits(#[trigger] ts[i]) by {
            if i < init.len() {
                assert(ts[i] == init[i]);
            }
        }
    }
}

proof fn lemma_parse_command(c: CommandView, tail: Seq<u8>)
    requires
        command_fits(c),
    ensures
        parse_command(command_bytes(c) + tail) == Some((c, tail)),
{
    lemma_pow256_facts();
    let b = command_bytes(c) + tail;
    match c {
        CommandView::Once { program, args } => {
            let r4 = items_bytes(args) + tail;
            let r3 = le_bytes(args.len(), 8) + r4;
            let r2 = text_bytes(program) + r3;
            assert(b =~= le_bytes(0, 4) + r2);
            lemma_parse_uint(0, 4, r2);
            lemma_parse_text(program, r3);
            lemma_parse_uint(args.len(), 8, r4);
            lemma_parse_items(args, tail);
        },
        CommandView::Status { pid } => {
            let r2 = le_bytes(pid as nat, 4) + tail;
            assert(b =~= le_bytes(3, 4) + r2);
            lemma_parse_uint(3, 4, r2);
            lemma_parse_uint(pid as nat, 4, tail);
        },
        _ => {
            assert(b =~= le_bytes(command_tag(c), 4) + tail);
            lemma_parse_uint(command_tag(c), 4, tail);
        },
    }
}

proof fn lemma_parse_command_back(b: Seq<u8>)
    requires
        parse_command(b) is Some,
    ensures
        ({
            let (c, rest) = parse_command(b)->0;
            &&& command_bytes(c) + rest == b
            &&& command_fits(c)
        }),
{
    lemma_pow256_facts();
    lemma_parse_uint_back(b, 4);
    let (tag, r1) = parse_uint(b, 4)->0;
    let (c, rest) = parse_command(b)->0;
    if tag == 0 {
        lemma_parse_text_back(r1);
        let (program, r2) = parse_text(r1)->0;
        lemma_parse_uint_back(r2, 8);
        let (n, r3) = parse_uint(r2, 8)->0;
        lemma_parse_items_back(r3, n);
        let (args, r4) = parse_items(r3, n)->0;
        assert(command_bytes(c) + rest =~= le_bytes(tag, 4) + (text_bytes(program) + (le_bytes(
            n,
            8,
        ) + (items_bytes(args) + r4))));
    } else if tag == 3 {
        lemma_parse_uint_back(r1, 4);
        let (pid, r2) = parse_uint(r1, 4)->0;
        assert((pid as u32) as nat == pid);
        assert(command_bytes(c) + rest =~= le_bytes(tag, 4) + (le_bytes(pid, 4) + r2));
    } else {
        assert(command_bytes(c) + rest =~= le_bytes(tag, 4) + r1);
    }
}

proof fn lemma_twos(t: i64)
    ensures
        twos(t) < pow256(8),
        from_twos(twos(t)) == t,
{
    lemma_pow256_facts();
}

proof fn lemma_from_twos(u: nat)
    requires
        u < pow256(8),
    ensures
        twos(from_twos(u)) == u,
{
    lemma_pow256_facts();
}

/// Decoding the encoding of a request gives the request back: the same
/// command, with the same fields, and the same time.
pub proof fn lemma_request_round_trip(r: RequestView)
    requires
        command_fits(r.command),
    ensures
        parse_request(request_bytes(r)) == Some(r),
{
    let tb = le_bytes(twos(r.time), 8);
    lemma_parse_command(r.command, tb);
    lemma_twos(r.time);
    lemma_parse_uint(twos(r.time), 8, Seq::empty());
    assert(tb + Seq::<u8>::empty() =~= tb);
}

/// The bytes that decode to a request are exactly its encoding.
pub proof fn lemma_request_decode_exact(b: Seq<u8>)
    requires
        parse_request(b) is Some,
    ensures
        request_bytes(parse_request(b)->0) == b,
        command_fits(parse_request(b)->0.command),
{
    lemma_parse_command_back(b);
    let (c, rest) = parse_command(b)->0;
    lemma_parse_uint_back(rest, 8);
    let (t, rest2) = parse_uint(rest, 8)->0;
    lemma_from_twos(t);
    assert(rest =~= le_bytes(t, 8));
}

/// Decoding the encoding of a response gives its message back.
pub proof fn lemma_response_round_trip(m: Seq<char>)
    requires
        text_fits(m),
    ensures
        parse_response(response_bytes(m)) == Some(m),
{
    lemma_parse_text(m, Seq::empty());
    assert(text_bytes(m) + Seq::<u8>::empty() =~= text_bytes(m));
}

/// The bytes that decode to a response are exactly its encoding.
pub proof fn lemma_response_decode_exact(b: Seq<u8>)
    requires
        parse_response(b) is Some,
    ensures
        response_bytes(parse_response(b)->0) == b,
        text_fits(parse_response(b)->0),
{
    lemma_parse_text_back(b);
    let (m, rest) = parse_text(b)->0;
    assert(text_bytes(m) + rest =~= text_bytes(m));
}

/// A payload as it travels on a stream: its length in eight bytes, then
/// the payload itself.
pub open spec fn frame_bytes(p: Seq<u8>) -> Seq<u8> {
    le_bytes(p.len(), 8) + p
}

/// Reading the length prefix of a frame gives the payload's length, and
/// the payload follows it.
pub proof fn lemma_frame_round_trip(p: Seq<u8>)
    requires
        p.len() < pow256(8),
    ensures
        parse_uint(frame_bytes(p), 8) == Some((p.len(), p)),
{
    lemma_parse_uint(p.len(), 8, p);
}

/// The request could not be read from the bytes received.
pub struct DecodeError;

/// Relies on `std::str::from_utf8`: it accepts exactly the valid UTF-8
/// byte sequences, and the text it gives back is made of those bytes.
#[verifier::external_body]
fn text_from_utf8(b: &[u8]) -> (r: Option<String>)
    ensures
        r is Some <==> valid_utf8(b@),
        r matches Some(s) ==> encode_utf8(s@) == b@,
{
    match std::str::from_utf8(b) {
        Ok(s) => Some(s.to_string()),
        Err(_) => None,
    }
}

proof fn lemma_usize_fits()
    ensures
        usize::MAX < pow256(8),
{
    lemma_pow256_facts();
}

fn push_bytes(out: &mut Vec<u8>, b: &[u8])
    ensures
        final(out)@ == old(out)@ + b@,
{
    let n = b.len();
    let mut i: usize = 0;
    while i < n
        invariant
            i <= n == b@.len(),
            out@ == old(out)@ + b@.take(i as int),
        decreases n - i,
    {
        out.push(b[i]);
        assert(b@.take(i + 1) =~= b@.take(i as int).push(b@[i as int]));
        assert(out@ =~= old(out)@ + b@.take(i + 1));
        i = i + 1;
    }
    assert(b@.take(n as int) =~= b@);
}

fn push_text(out: &mut Vec<u8>, t: &String)
    ensures
        final(out)@ == old(out)@ + text_bytes(t@),
        text_fits(t@),
{
    let b = t.as_str().as_bytes();
    proof {
        lemma_usize_fits();
    }
    push_le(out, b.len() as u64, 8);
    push_bytes(out, b);
    assert(out@ =~= old(out)@ + text_bytes(t@));
}

fn push_items(out: &mut Vec<u8>, ts: &Vec<String>)
    ensures
        final(out)@ == old(out)@ + items_bytes(texts_view(ts@)),
        forall|i: int| 0 <= i < ts@.len() ==> text_fits(#[trigger] texts_view(ts@)[i]),
{
    let n = ts.len();
    let mut i: usize = 0;
    while i < n
        invariant
            i <= n == ts@.len(),
            out@ == old(out)@ + items_bytes(texts_view(ts@.take(i as int))),
            forall|j: int| 0 <= j < i ==> text_fits(#[trigger] ts@[j]@),
        decreases n - i,
    {
        push_text(out, &ts[i]);
        proof {
            let done = texts_view(ts@.take(i + 1));
            assert(done.drop_last() =~= texts_view(ts@.take(i as int)));
            assert(done.last() == ts@[i as int]@);
        }
        assert(out@ =~= old(out)@ + items_bytes(texts_view(ts@.take(i + 1))));
        i = i + 1;
    }
    assert(ts@.take(n as int) =~= ts@);
}

fn twos_of(t: i64) -> (r: u64)
    ensures
        r as nat == twos(t),
{
    if t >= 0 {
        t as u64
    } else {
        u64::MAX - ((-(t + 1)) as u64)
    }
}

fn from_twos_of(u: u64) -> (r: i64)
    ensures
        r == from_twos(u as nat),
{
    if u < 0x8000_0000_0000_0000 {
        u as i64
    } else {
        -((u64::MAX - u) as i64) - 1
    }
}

impl Command {
    /// The bytes of this command on the wire.
    pub fn encode_into(&self, out: &mut Vec<u8>)
        ensures
            final(out)@ == old(out)@ + command_bytes(self@),
            command_fits(self@),
    {
        proof {
            lemma_pow256_facts();
            lemma_usize_fits();
        }
        match self {
            Command::Once(c) => {
                push_le(out, 0, 4);
                push_text(out, &c.program);
                push_le(out, c.args.len() as u64, 8);
                push_items(out, &c.args);
                assert(out@ =~= old(out)@ + command_bytes(self@));
            },
            Command::Latest(_) => {
                push_le(out, 1, 4);
                assert(out@ =~= old(out)@ + command_bytes(self@));
            },
            Command::Ping(_) => {
                push_le(out, 2, 4);
                assert(out@ =~= old(out)@ + command_bytes(self@));
            },
            Command::Status(c) => {
                push_le(out, 3, 4);
                push_le(out, c.pid as u64, 4);
                assert(out@ =~= old(out)@ + command_bytes(self@));
            },
            Command::List(_) => {
                push_le(out, 4, 4);
                assert(out@ =~= old(out)@ + command_bytes(self@));
            },
        }
    }
}

impl Request {
    /// The payload that carries this request.
    pub fn encode(&self) -> (r: Vec<u8>)
        ensures
            r@ == request_bytes(self@),
            command_fits(self.command@),
    {
        let mut out: Vec<u8> = Vec::new();
        self.command.encode_into(&mut out);
        push_le(&mut out, twos_of(self.time), 8);
        assert(out@ =~= request_bytes(self@));
        out
    }

    /// The request that a payload carries; an error where the payload is
    /// not exactly the encoding of one request.
    pub fn decode(b: &[u8]) -> (r: Result<Request, DecodeError>)
        ensures
            r is Err <==> parse_request(b@) is None,
            r matches Ok(q) ==> parse_request(b@) == Some(q@),
    {
        assert(b@.skip(0) =~= b@);
        let (command, p) = match read_command(b, 0) {
            Some(x) => x,
            None => return Err(DecodeError),
        };
        let (t, p2) = match read_uint(b, p, 8) {
            Some(x) => x,
            None => return Err(DecodeError),
        };
        if p2 == b.len() {
            Ok(Request { command, time: from_twos_of(t) })
        } else {
            Err(DecodeError)
        }
    }
}

impl Response {
    /// The payload that carries this response.
    pub fn encode(&self) -> (r: Vec<u8>)
        ensures
            r@ == response_bytes(self@),
            text_fits(self@),
    {
        let mut out: Vec<u8> = Vec::new();
        push_text(&mut out, &self.msg);
        assert(out@ =~= response_bytes(self@));
        out
    }

    /// The response that a payload carries; an error where the payload is
    /// not exactly the encoding of one response.
    pub fn decode(b: &[u8]) -> (r: Result<Response, DecodeError>)
        ensures
            r is Err <==> parse_response(b@) is None,
            r matches Ok(m) ==> parse_response(b@) == Some(m@),
    {
        assert(b@.skip(0) =~= b@);
        match read_text(b, 0) {
            Some((msg, p)) => {
                if p == b.len() {
                    Ok(Response { msg })
                } else {
                    Err(DecodeError)
                }
            },
            None => Err(DecodeError),
        }
    }
}

/// The frame that carries `payload`.
pub fn frame(payload: &[u8]) -> (r: Vec<u8>)
    ensures
        r@ == frame_bytes(payload@),
{
    let mut out: Vec<u8> = Vec::new();
    proof {
        lemma_usize_fits();
    }
    push_le(&mut out, payload.len() as u64, 8);
    push_bytes(&mut out, payload);
    assert(out@ =~= frame_bytes(payload@));
    out
}

/// The payload length that the eight-byte prefix of a frame announces.
pub fn frame_length(prefix: &[u8]) -> (r: u64)
    requires
        prefix@.len() == 8,
    ensures
        r as nat == le_value(prefix@),
{
    assert(prefix@.subrange(0, 8) =~= prefix@);
    read_le(prefix, 0, 8)
}

fn read_uint(b: &[u8], pos: usize, k: usize) -> (r: Option<(u64, usize)>)
    requires
        pos <= b@.len(),
        k <= 8,
    ensures
        r is None <==> parse_uint(b@.skip(pos as int), k as nat) is None,
        r matches Some((v, p)) ==> p <= b@.len() && parse_uint(b@.skip(pos as int), k as nat)
            == Some((v as nat, b@.skip(p as int))),
{
    if b.len() - pos >= k {
        let v = read_le(b, pos, k);
        assert(b@.skip(pos as int).take(k as int) =~= b@.subrange(pos as int, pos + k));
        assert(b@.skip(pos as int).skip(k as int) =~= b@.skip(pos + k));
        Some((v, pos + k))
    } else {
        None
    }
}

fn read_text(b: &[u8], pos: usize) -> (r: Option<(String, usize)>)
    requires
        pos <= b@.len(),
    ensures
        r is None <==> parse_text(b@.skip(pos as int)) is None,
        r matches Some((t, p)) ==> p <= b@.len() && parse_text(b@.skip(pos as int)) == Some(
            (t@, b@.skip(p as int)),
        ),
{
    let (n, p) = match read_uint(b, pos, 8) {
        Some(x) => x,
        None => return None,
    };
    if n > (b.len() - p) as u64 {
        return None;
    }
    let end = p + n as usize;
    let slice = slice_subrange(b, p, end);
    let ghost rest = b@.skip(p as int);
    assert(slice@ =~= rest.take(n as int));
    assert(b@.skip(end as int) =~= rest.skip(n as int));
    match text_from_utf8(slice) {
        Some(t) => {
            proof {
                encode_utf8_decode_utf8(t@);
            }
            Some((t, end))
        },
        None => None,
    }
}

proof fn lemma_parse_items_stays_none(b: Seq<u8>, m: nat, n: nat)
    requires
        parse_items(b, m) is None,
        m <= n,
    ensures
        parse_items(b, n) is None,
    decreases n,
{
    if m < n {
        lemma_parse_items_stays_none(b, m, (n - 1) as nat);
    }
}

fn read_items(b: &[u8], pos: usize, n: u64) -> (r: Option<(Vec<String>, usize)>)
    requires
        pos <= b@.len(),
    ensures
        r is None <==> parse_items(b@.skip(pos as int), n as nat) is None,
        r matches Some((ts, p)) ==> p <= b@.len() && parse_items(b@.skip(pos as int), n as nat)
            == Some((texts_view(ts@), b@.skip(p as int))),
{
    let ghost start = b@.skip(pos as int);
    let mut ts: Vec<String> = Vec::new();
    let mut p: usize = pos;
    let mut i: u64 = 0;
    assert(texts_view(ts@) =~= Seq::<Seq<char>>::empty());
    while i < n
        invariant
            i <= n,
            p <= b@.len(),
            start == b@.skip(pos as int),
            parse_items(start, i as nat) == Some((texts_view(ts@), b@.skip(p as int))),
        decreases n - i,
    {
        match read_text(b, p) {
            Some((t, p2)) => {
                let ghost before = ts@;
                ts.push(t);
                assert(texts_view(ts@) =~= texts_view(before).push(t@));
                p = p2;
            },
            None => {
                proof {
                    lemma_parse_items_stays_none(start, (i + 1) as nat, n as nat);
                }
                return None;
            },
        }
        i = i + 1;
    }
    Some((ts, p))
}

fn read_command(b: &[u8], pos: usize) -> (r: Option<(Command, usize)>)
    requires
        pos <= b@.len(),
    ensures
        r is None <==> parse_command(b@.skip(pos as int)) is None,
        r matches Some((c, p)) ==> p <= b@.len() && parse_command(b@.skip(pos as int)) == Some(
            (c@, b@.skip(p as int)),
        ),
{
    let (tag, p) = match read_uint(b, pos, 4) {
        Some(x) => x,
        None => return None,
    };
    if tag == 0 {
        let (program, p2) = match read_text(b, p) {
            Some(x) => x,
            None => return None,
        };
        let (n, p3) = match read_uint(b, p2, 8) {
            Some(x) => x,
            None => return None,
        };
        let (args, p4) = match read_items(b, p3, n) {
            Some(x) => x,
            None => return None,
        };
        Some((Command::Once(CmdOnce { program, args }), p4))
    } else if tag == 1 {
        Some((Command::Latest(CmdLatest), p))
    } else if tag == 2 {
        Some((Command::Ping(CmdPing), p))
    } else if tag == 3 {
        let (pid, p2) = match read_uint(b, p, 4) {
            Some(x) => x,
            None => return None,
        };
        proof {
            lemma_pow256_facts();
            lemma_le_value_bound(b@.skip(p as int).take(4));
        }
        Some((Command::Status(CmdStatus { pid: pid as u32 }), p2))
    } else if tag == 4 {
        Some((Command::List(CmdList), p))
    } else {
        None
    }
}

} // verus!
