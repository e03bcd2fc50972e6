//! Wire codec for the peer-to-peer protocol.
//!
//! Each message is a single-line JSON object in a fixed field order:
//!
//! - active:  `{"feeding_node":"NAME","transition_id":T,"value":V,"clock":C}`
//! - passive: `{"feeding_node":"NAME","clock":C}`
//!
//! Presence of the `transition_id` field tells the two shapes apart, and the
//! `feeding_node` field always comes first, so a router can pick the sender
//! out of either shape.  The codec works on the UTF-8 bytes of the line;
//! node names are required to be printable ASCII without `"` or `\`, which
//! every `host:port` endpoint satisfies.

use vstd::prelude::*;
use vstd::string::StrSliceExecFns;
use vstd::string::StringSliceAdditionalSpecFns;

use crate::model::ActiveEvent;
use crate::model::Event;
use crate::model::GenericEvent;
use crate::model::PassiveEvent;

verus! {

broadcast use vstd::string::is_ascii_spec_bytes;

/// A character that may stand in a node name on the wire: printable ASCII,
/// no quote, no backslash (so the JSON string needs no escaping).
pub open spec fn wf_name_char(c: char) -> bool {
    &&& 0x20 <= c as int <= 0x7e
    &&& c != '"'
    &&& c != '\\'
}

/// A node name that the codec carries verbatim.
pub open spec fn wf_name(s: Seq<char>) -> bool {
    forall|i: int| 0 <= i < s.len() ==> wf_name_char(s[i])
}

/// The UTF-8 bytes of an ASCII character sequence.
pub open spec fn bytes_of(s: Seq<char>) -> Seq<u8> {
    Seq::new(s.len(), |i: int| s[i] as u8)
}

/// The characters of an ASCII byte sequence.
pub open spec fn chars_of(s: Seq<u8>) -> Seq<char> {
    Seq::new(s.len(), |i: int| s[i] as char)
}

/// A byte that may stand in a node name on the wire.
pub open spec fn wf_name_byte(b: u8) -> bool {
    &&& 0x20 <= b <= 0x7e
    &&& b != 0x22
    &&& b != 0x5c
}

/// A name, as bytes, that the codec carries verbatim.
pub open spec fn wf_name_bytes(s: Seq<u8>) -> bool {
    forall|i: int| 0 <= i < s.len() ==> wf_name_byte(s[i])
}

/// An ASCII decimal digit.
pub open spec fn is_digit(b: u8) -> bool {
    0x30 <= b <= 0x39
}

/// Shortest decimal form of `n`, most significant digit first.
pub open spec fn dec_u(n: nat) -> Seq<u8>
    decreases n,
{
    if n < 10 {
        seq![(0x30 + n) as u8]
    } else {
        dec_u(n / 10) + seq![(0x30 + n % 10) as u8]
    }
}

/// Decimal form of a possibly negative integer.
pub open spec fn dec_i(v: int) -> Seq<u8> {
    if v < 0 {
        seq![0x2du8] + dec_u((-v) as nat)
    } else {
        dec_u(v as nat)
    }
}

/// `{"feeding_node":"` — how every message opens.
pub open spec fn feed_prefix() -> Seq<u8> {
    seq![
        0x7bu8, 0x22u8, 0x66u8, 0x65u8, 0x65u8, 0x64u8, 0x69u8, 0x6eu8, 0x67u8, 0x5fu8, 0x6eu8,
        0x6fu8, 0x64u8, 0x65u8, 0x22u8, 0x3au8, 0x22u8,
    ]
}

/// `","transition_id":` — closes the name and opens the id of an active
/// message.
pub open spec fn tid_key() -> Seq<u8> {
    seq![
        0x22u8, 0x2cu8, 0x22u8, 0x74u8, 0x72u8, 0x61u8, 0x6eu8, 0x73u8, 0x69u8, 0x74u8, 0x69u8,
        0x6fu8, 0x6eu8, 0x5fu8, 0x69u8, 0x64u8, 0x22u8, 0x3au8,
    ]
}

/// `,"value":` — opens the value of an active message.
pub open spec fn val_key() -> Seq<u8> {
    seq![0x2cu8, 0x22u8, 0x76u8, 0x61u8, 0x6cu8, 0x75u8, 0x65u8, 0x22u8, 0x3au8]
}

/// `,"clock":` — opens the clock of an active message.
pub open spec fn clk_key() -> Seq<u8> {
    seq![0x2cu8, 0x22u8, 0x63u8, 0x6cu8, 0x6fu8, 0x63u8, 0x6bu8, 0x22u8, 0x3au8]
}

/// `","clock":` — closes the name and opens the clock of a passive message.
pub open spec fn passive_clk_key() -> Seq<u8> {
    seq![0x22u8, 0x2cu8, 0x22u8, 0x63u8, 0x6cu8, 0x6fu8, 0x63u8, 0x6bu8, 0x22u8, 0x3au8]
}

/// `}` — how every message closes.
pub open spec fn close_brace() -> Seq<u8> {
    seq![0x7du8]
}

/// The canonical line of an active event.
pub open spec fn active_line(name: Seq<u8>, tid: nat, value: int, clock: nat) -> Seq<u8> {
    feed_prefix() + name + tid_key() + dec_u(tid) + val_key() + dec_i(value) + clk_key() + dec_u(
        clock,
    ) + close_brace()
}

/// The canonical line of a passive event.
pub open spec fn passive_line(name: Seq<u8>, clock: nat) -> Seq<u8> {
    feed_prefix() + name + passive_clk_key() + dec_u(clock) + close_brace()
}

/// Append every byte of `bytes` to `out`.
fn push_bytes(out: &mut Vec<u8>, bytes: &Vec<u8>)
    ensures
        final(out)@ == old(out)@ + bytes@,
{
    let mut i: usize = 0;
    while i < bytes.len()
        invariant
            i <= bytes@.len(),
            out@ == old(out)@ + bytes@.take(i as int),
        decreases bytes@.len() - i,
    {
        out.push(bytes[i]);
        proof {
            assert(old(out)@ + bytes@.take(i as int) + seq![bytes@[i as int]] =~= old(out)@
                + bytes@.take(i as int + 1));
        }
        i = i + 1;
    }
    proof {
        assert(bytes@.take(bytes@.len() as int) =~= bytes@);
    }
}

/// Append the shortest decimal form of `n`.
fn write_u(out: &mut Vec<u8>, n: usize)
    ensures
        final(out)@ == old(out)@ + dec_u(n as nat),
    decreases n,
{
    if n >= 10 {
        write_u(out, n / 10);
        out.push(0x30 + (n % 10) as u8);
        proof {
            assert(old(out)@ + dec_u((n / 10) as nat) + seq![(0x30 + (n as nat) % 10) as u8]
                =~= old(out)@ + dec_u(n as nat));
        }
    } else {
        out.push(0x30 + n as u8);
        proof {
            assert(old(out)@ + seq![(0x30 + (n as nat)) as u8] =~= old(out)@ + dec_u(n as nat));
        }
    }
}

/// Append the decimal form of `v`, with a leading minus for negatives.
fn write_i(out: &mut Vec<u8>, v: isize)
    ensures
        final(out)@ == old(out)@ + dec_i(v as int),
{
    if v >= 0 {
        write_u(out, v as usize);
    } else {
        out.push(0x2d);
        let m: usize = ((-(v + 1)) as usize) + 1;
        assert(m as int == -(v as int));
        write_u(out, m);
        proof {
            assert(old(out)@ + seq![0x2du8] + dec_u(m as nat) =~= old(out)@ + dec_i(v as int));
        }
    }
}

/// The literal bytes of [`feed_prefix`].
fn lit_feed_prefix() -> (r: Vec<u8>)
    ensures
        r@ == feed_prefix(),
{
    let mut r: Vec<u8> = Vec::new();
    r.push(0x7b);
    r.push(0x22);
    r.push(0x66);
    r.push(0x65);
    r.push(0x65);
    r.push(0x64);
    r.push(0x69);
    r.push(0x6e);
    r.push(0x67);
    r.push(0x5f);
    r.push(0x6e);
    r.push(0x6f);
    r.push(0x64);
    r.push(0x65);
    r.push(0x22);
    r.push(0x3a);
    r.push(0x22);
    proof {
        assert(r@ =~= feed_prefix());
    }
    r
}

/// The literal bytes of [`tid_key`].
fn lit_tid_key() -> (r: Vec<u8>)
    ensures
        r@ == tid_key(),
{
    let mut r: Vec<u8> = Vec::new();
    r.push(0x22);
    r.push(0x2c);
    r.push(0x22);
    r.push(0x74);
    r.push(0x72);
    r.push(0x61);
    r.push(0x6e);
    r.push(0x73);
    r.push(0x69);
    r.push(0x74);
    r.push(0x69);
    r.push(0x6f);
    r.push(0x6e);
    r.push(0x5f);
    r.push(0x69);
    r.push(0x64);
    r.push(0x22);
    r.push(0x3a);
    proof {
        assert(r@ =~= tid_key());
    }
    r
}

/// The literal bytes of [`val_key`].
fn lit_val_key() -> (r: Vec<u8>)
    ensures
        r@ == val_key(),
{
    let mut r: Vec<u8> = Vec::new();
    r.push(0x2c);
    r.push(0x22);
    r.push(0x76);
    r.push(0x61);
    r.push(0x6c);
    r.push(0x75);
    r.push(0x65);
    r.push(0x22);
    r.push(0x3a);
    proof {
        assert(r@ =~= val_key());
    }
    r
}

/// The literal bytes of [`clk_key`].
fn lit_clk_key() -> (r: Vec<u8>)
    ensures
        r@ == clk_key(),
{
    let mut r: Vec<u8> = Vec::new();
    r.push(0x2c);
    r.push(0x22);
    r.push(0x63);
    r.push(0x6c);
    r.push(0x6f);
    r.push(0x63);
    r.push(0x6b);
    r.push(0x22);
    r.push(0x3a);
    proof {
        assert(r@ =~= clk_key());
    }
    r
}

/// The literal bytes of [`passive_clk_key`].
fn lit_passive_clk_key() -> (r: Vec<u8>)
    ensures
        r@ == passive_clk_key(),
{
    let mut r: Vec<u8> = Vec::new();
    r.push(0x22);
    r.push(0x2c);
    r.push(0x22);
    r.push(0x63);
    r.push(0x6c);
    r.push(0x6f);
    r.push(0x63);
    r.push(0x6b);
    r.push(0x22);
    r.push(0x3a);
    proof {
        assert(r@ =~= passive_clk_key());
    }
    r
}

/// Serialize an active event to its canonical line (no newline).
pub fn serialize_active(e: &ActiveEvent) -> (r: Vec<u8>)
    requires
        wf_name(e.feeding_node@),
    ensures
        r@ == active_line(
            bytes_of(e.feeding_node@),
            e.transition_id as nat,
            e.value as int,
            e.clock as nat,
        ),
{
    let mut r = lit_feed_prefix();
    let s = e.feeding_node.as_str();
    proof {
        assert(vstd::string::is_ascii(s));
    }
    let name = s.as_bytes_vec();
    proof {
        assert(name@ =~= bytes_of(e.feeding_node@));
    }
    push_bytes(&mut r, &name);
    let key = lit_tid_key();
    push_bytes(&mut r, &key);
    write_u(&mut r, e.transition_id);
    let key = lit_val_key();
    push_bytes(&mut r, &key);
    write_i(&mut r, e.value);
    let key = lit_clk_key();
    push_bytes(&mut r, &key);
    write_u(&mut r, e.clock);
    r.push(0x7d);
    proof {
        assert(r@ =~= active_line(
            bytes_of(e.feeding_node@),
            e.transition_id as nat,
            e.value as int,
            e.clock as nat,
        ));
    }
    r
}

/// Serialize a passive event to its canonical line (no newline).
pub fn serialize_passive(e: &PassiveEvent) -> (r: Vec<u8>)
    requires
        wf_name(e.feeding_node@),
    ensures
        r@ == passive_line(bytes_of(e.feeding_node@), e.clock as nat),
{
    let mut r = lit_feed_prefix();
    let s = e.feeding_node.as_str();
    proof {
        assert(vstd::string::is_ascii(s));
    }
    let name = s.as_bytes_vec();
    proof {
        assert(name@ =~= bytes_of(e.feeding_node@));
    }
    push_bytes(&mut r, &name);
    let key = lit_passive_clk_key();
    push_bytes(&mut r, &key);
    write_u(&mut r, e.clock);
    r.push(0x7d);
    proof {
        assert(r@ =~= passive_line(bytes_of(e.feeding_node@), e.clock as nat));
    }
    r
}

/// A wire message at the byte level: what a line says, before any machine
/// range is imposed.
pub enum WireForm {
    Active { name: Seq<u8>, transition_id: nat, value: int, clock: nat },
    Passive { name: Seq<u8>, clock: nat },
}

/// Index of the first `"` at or after `i`, or -1 when none follows.
pub open spec fn find_quote(s: Seq<u8>, i: int) -> int
    decreases s.len() - i,
{
    if i < 0 || i >= s.len() {
        -1
    } else if s[i] == 0x22 {
        i
    } else {
        find_quote(s, i + 1)
    }
}

/// Index of the first non-digit at or after `i`, or the length when digits
/// run to the end.
pub open spec fn digits_end(s: Seq<u8>, i: int) -> int
    decreases s.len() - i,
{
    if i < 0 || i >= s.len() {
        s.len() as int
    } else if !is_digit(s[i]) {
        i
    } else {
        digits_end(s, i + 1)
    }
}

/// Numeric value of one digit byte (zero for anything else).
pub open spec fn digit_val(b: u8) -> nat {
    if is_digit(b) {
        (b - 0x30) as nat
    } else {
        0
    }
}

/// Numeric value of a digit string, most significant digit first.
pub open spec fn digits_val(s: Seq<u8>) -> nat
    decreases s.len(),
{
    if s.len() == 0 {
        0
    } else {
        digits_val(s.drop_last()) * 10 + digit_val(s.last())
    }
}

/// Unsigned number starting at `i`: its value and the index just past it, or
/// nothing when no digit stands at `i`.
pub open spec fn parse_num_at(s: Seq<u8>, i: int) -> Option<(nat, int)> {
    let e = digits_end(s, i);
    if e == i {
        None
    } else {
        Some((digits_val(s.subrange(i, e)), e))
    }
}

/// Possibly negative number starting at `i`.
pub open spec fn parse_int_at(s: Seq<u8>, i: int) -> Option<(int, int)> {
    if 0 <= i < s.len() && s[i] == 0x2d {
        match parse_num_at(s, i + 1) {
            Some((n, e)) => Some((-(n as int), e)),
            None => None,
        }
    } else {
        match parse_num_at(s, i) {
            Some((n, e)) => Some((n as int, e)),
            None => None,
        }
    }
}

/// What a line of bytes says, or nothing when it is not a canonical message.
pub open spec fn parse_wire(s: Seq<u8>) -> Option<WireForm> {
    let p = feed_prefix().len() as int;
    if s.len() < p || s.subrange(0, p) != feed_prefix() {
        None
    } else {
        let q = find_quote(s, p);
        if q < 0 {
            None
        } else {
            let name = s.subrange(p, q);
            if !wf_name_bytes(name) {
                None
            } else {
                let rest = s.subrange(q, s.len() as int);
                if rest.len() >= tid_key().len() && rest.subrange(0, tid_key().len() as int)
                    == tid_key() {
                    parse_active_tail(s, name, q + tid_key().len())
                } else if rest.len() >= passive_clk_key().len() && rest.subrange(
                    0,
                    passive_clk_key().len() as int,
                ) == passive_clk_key() {
                    parse_passive_tail(s, name, q + passive_clk_key().len())
                } else {
                    None
                }
            }
        }
    }
}

/// Tail of an active message: id, value, clock, closing brace.
pub open spec fn parse_active_tail(s: Seq<u8>, name: Seq<u8>, i: int) -> Option<WireForm> {
    match parse_num_at(s, i) {
        None => None,
        Some((tid, e1)) => {
            if e1 + val_key().len() <= s.len() && s.subrange(e1, e1 + val_key().len() as int)
                == val_key() {
                match parse_int_at(s, e1 + val_key().len()) {
                    None => None,
                    Some((v, e2)) => {
                        if e2 + clk_key().len() <= s.len() && s.subrange(
                            e2,
                            e2 + clk_key().len() as int,
                        ) == clk_key() {
                            match parse_num_at(s, e2 + clk_key().len()) {
                                None => None,
                                Some((clk, e3)) => {
                                    if e3 == s.len() - 1 && s[e3] == 0x7d {
                                        Some(
                                            WireForm::Active {
                                                name,
                                                transition_id: tid,
                                                value: v,
                                                clock: clk,
                                            },
                                        )
                                    } else {
                                        None
                                    }
                                },
                            }
                        } else {
                            None
                        }
                    },
                }
            } else {
                None
            }
        },
    }
}

/// Tail of a passive message: clock, closing brace.
pub open spec fn parse_passive_tail(s: Seq<u8>, name: Seq<u8>, i: int) -> Option<WireForm> {
    match parse_num_at(s, i) {
        None => None,
        Some((clk, e1)) => {
            if e1 == s.len() - 1 && s[e1] == 0x7d {
                Some(WireForm::Passive { name, clock: clk })
            } else {
                None
            }
        },
    }
}

/// A wire message whose numbers fit the machine's integer types.
pub open spec fn wire_in_range(w: WireForm) -> bool {
    match w {
        WireForm::Active { name, transition_id, value, clock } => {
            &&& transition_id <= usize::MAX as nat
            &&& clock <= usize::MAX as nat
            &&& isize::MIN as int <= value <= isize::MAX as int
        },
        WireForm::Passive { name, clock } => clock <= usize::MAX as nat,
    }
}

/// The decoded event an in-range wire message stands for.
pub open spec fn event_matches(e: Event, w: WireForm) -> bool {
    match (e, w) {
        (Event::Active(a), WireForm::Active { name, transition_id, value, clock }) => {
            &&& a.feeding_node@ == chars_of(name)
            &&& a.transition_id as nat == transition_id
            &&& a.value as int == value
            &&& a.clock as nat == clock
        },
        (Event::Passive(p), WireForm::Passive { name, clock }) => {
            &&& p.feeding_node@ == chars_of(name)
            &&& p.clock as nat == clock
        },
        _ => false,
    }
}

proof fn lemma_find_quote_none(s: Seq<u8>, i: int)
    requires
        0 <= i <= s.len(),
        forall|j: int| i <= j < s.len() ==> s[j] != 0x22,
    ensures
        find_quote(s, i) == -1,
    decreases s.len() - i,
{
    if i < s.len() {
        lemma_find_quote_none(s, i + 1);
    }
}

proof fn lemma_find_quote_found(s: Seq<u8>, i: int, q: int)
    requires
        0 <= i <= q < s.len(),
        forall|j: int| i <= j < q ==> s[j] != 0x22,
        s[q] == 0x22,
    ensures
        find_quote(s, i) == q,
    decreases q - i,
{
    if i < q {
        lemma_find_quote_found(s, i + 1, q);
    }
}

proof fn lemma_digits_end_at(s: Seq<u8>, i: int, e: int)
    requires
        0 <= i <= e <= s.len(),
        forall|j: int| i <= j < e ==> is_digit(s[j]),
        e == s.len() || !is_digit(s[e]),
    ensures
        digits_end(s, i) == e,
    decreases e - i,
{
    if i < e {
        lemma_digits_end_at(s, i + 1, e);
    }
}

/// A longer digit string never has a smaller value.
proof fn lemma_digits_val_extend(s: Seq<u8>, i: int, k: int, m: int)
    requires
        0 <= i <= k <= m <= s.len(),
    ensures
        digits_val(s.subrange(i, m)) >= digits_val(s.subrange(i, k)),
    decreases m - k,
{
    if m > k {
        lemma_digits_val_extend(s, i, k, m - 1);
        assert(s.subrange(i, m).drop_last() =~= s.subrange(i, m - 1));
        assert(digits_val(s.subrange(i, m)) == digits_val(s.subrange(i, m - 1)) * 10 + digit_val(
            s.subrange(i, m).last(),
        ));
    }
}

/// Unsigned decimal scan.  Returns the value and the index just past the
/// digits, or nothing when there is no digit at `i` or the value does not
/// fit a `usize`.
fn scan_usize(s: &Vec<u8>, i: usize) -> (r: Option<(usize, usize)>)
    requires
        i <= s@.len(),
    ensures
        ({
            match parse_num_at(s@, i as int) {
                None => r is None,
                Some((n, e)) => if n <= usize::MAX as nat {
                    r == Some((n as usize, e as usize))
                } else {
                    r is None
                },
            }
        }),
        r matches Some(p) ==> i <= p.1 <= s@.len(),
        parse_num_at(s@, i as int) matches Some(pe) ==> i as int <= pe.1 <= s@.len(),
{
    if i == s.len() || !(0x30 <= s[i] && s[i] <= 0x39) {
        proof {
            if (i as int) < s@.len() {
                lemma_digits_end_at(s@, i as int, i as int);
            }
        }
        return None;
    }
    let mut acc: usize = 0;
    let mut j: usize = i;
    loop
        invariant
            i < s@.len(),
            is_digit(s@[i as int]),
            i <= j <= s@.len(),
            forall|k: int| i <= k < j ==> is_digit(s@[k]),
            acc as nat == digits_val(s@.subrange(i as int, j as int)),
        decreases s@.len() - j,
    {
        if j == s.len() || !(0x30 <= s[j] && s[j] <= 0x39) {
            proof {
                lemma_digits_end_at(s@, i as int, j as int);
            }
            return Some((acc, j));
        }
        let d: usize = (s[j] - 0x30) as usize;
        let ghost pre = s@.subrange(i as int, j as int);
        let ghost post = s@.subrange(i as int, j as int + 1);
        proof {
            assert(post.drop_last() =~= pre);
            assert(digits_val(post) == digits_val(pre) * 10 + digit_val(s@[j as int]));
        }
        let next = match acc.checked_mul(10) {
            Some(m) => m.checked_add(d),
            None => None,
        };
        match next {
            Some(v) => {
                acc = v;
                j = j + 1;
            },
            None => {
                proof {
                    let e = digits_end(s@, i as int);
                    lemma_digits_end_at_least(s@, i as int, j as int + 1);
                    lemma_digits_val_extend(s@, i as int, j as int + 1, e);
                    assert(digits_val(post) > usize::MAX as nat);
                    lemma_digits_val_extend(s@, i as int, j as int + 1, e);
                    assert(digits_val(s@.subrange(i as int, e)) >= digits_val(post));
                }
                return None;
            },
        }
    }
}

/// Every position in a run of digits is at most the run's end.
proof fn lemma_digits_end_at_least(s: Seq<u8>, i: int, m: int)
    requires
        0 <= i <= m <= s.len(),
        forall|j: int| i <= j < m ==> is_digit(s[j]),
    ensures
        digits_end(s, i) >= m,
        forall|j: int| i <= j < digits_end(s, i) ==> is_digit(s[j]),
        i <= digits_end(s, i) <= s.len(),
    decreases s.len() - i,
{
    if i < s.len() && is_digit(s[i]) {
        if i + 1 <= m {
            lemma_digits_end_at_least(s, i + 1, m);
        } else {
            lemma_digits_end_at_least(s, i + 1, i + 1);
        }
    }
}

/// Signed decimal scan, mirroring [`parse_int_at`].
fn scan_isize(s: &Vec<u8>, i: usize) -> (r: Option<(isize, usize)>)
    requires
        i <= s@.len(),
    ensures
        ({
            match parse_int_at(s@, i as int) {
                None => r is None,
                Some((v, e)) => if isize::MIN as int <= v <= isize::MAX as int {
                    r matches Some(p) && p.0 as int == v && p.1 as int == e
                } else {
                    r is None
                },
            }
        }),
        r matches Some(p) ==> p.1 <= s@.len(),
{
    if i < s.len() && s[i] == 0x2d {
        match scan_usize(s, i + 1) {
            None => None,
            Some((n, e)) => {
                if n <= isize::MAX as usize {
                    Some((-(n as isize), e))
                } else if n == (isize::MAX as usize) + 1 {
                    Some((isize::MIN, e))
                } else {
                    None
                }
            },
        }
    } else {
        match scan_usize(s, i) {
            None => None,
            Some((n, e)) => {
                if n <= isize::MAX as usize {
                    Some((n as isize, e))
                } else {
                    None
                }
            },
        }
    }
}

/// Whether `pat` stands in `s` at position `at`.
fn match_at(s: &Vec<u8>, at: usize, pat: &Vec<u8>) -> (r: bool)
    requires
        at <= s@.len(),
    ensures
        r == (at + pat@.len() <= s@.len() && s@.subrange(at as int, at as int + pat@.len() as int)
            == pat@),
{
    if pat.len() > s.len() - at {
        return false;
    }
    let mut i: usize = 0;
    while i < pat.len()
        invariant
            0 <= i <= pat@.len(),
            at + pat@.len() <= s@.len(),
            s@.len() <= usize::MAX,
            forall|j: int| 0 <= j < i ==> s@[at + j] == pat@[j],
        decreases pat@.len() - i,
    {
        if s[at + i] != pat[i] {
            proof {
                let sub = s@.subrange(at as int, at as int + pat@.len() as int);
                assert(sub[i as int] != pat@[i as int]);
            }
            return false;
        }
        i = i + 1;
    }
    proof {
        assert(s@.subrange(at as int, at as int + pat@.len() as int) =~= pat@);
    }
    true
}

/// Relies on `String::from_utf8`: a vector of ASCII bytes decodes to the
/// string whose characters are those byte values.
#[verifier::external_body]
fn string_from_ascii(bytes: Vec<u8>) -> (r: String)
    requires
        forall|i: int| 0 <= i < bytes@.len() ==> bytes@[i] < 0x80,
    ensures
        r@ == chars_of(bytes@),
{
    String::from_utf8(bytes).unwrap_or_default()
}

/// Decode one line.  Returns the message it canonically encodes, or nothing
/// when the line is not such an encoding (or its numbers overflow the
/// machine's types).
#[verifier::loop_isolation(false)]
pub fn parse_event(line: &str) -> (r: Option<Event>)
    ensures
        ({
            match parse_wire(line.spec_bytes()) {
                None => r is None,
                Some(w) => if wire_in_range(w) {
                    r matches Some(e) && event_matches(e, w)
                } else {
                    r is None
                },
            }
        }),
{
    let s = line.as_bytes_vec();
    proof {
        vstd::std_specs::vec::axiom_spec_len(&s);
    }
    let pre = lit_feed_prefix();
    if !match_at(&s, 0, &pre) {
        return None;
    }
    // scan the name: up to the first quote, well-formed bytes only
    let mut q: usize = pre.len();
    while q < s.len() && s[q] != 0x22
        invariant
            pre@.len() <= q <= s@.len(),
            forall|j: int| pre@.len() <= j < q ==> s@[j] != 0x22,
            forall|j: int| pre@.len() <= j < q ==> wf_name_byte(s@[j]),
        decreases s@.len() - q,
    {
        if !(0x20 <= s[q] && s[q] <= 0x7e) || s[q] == 0x5c {
            // a byte no name may carry: if a quote follows, the name is not
            // well-formed; if none does, the line has no name at all
            proof {
                let p = pre@.len() as int;
                lemma_find_quote_bounds(s@, p);
                lemma_find_quote_ge(s@, p, q as int + 1);
                let fq = find_quote(s@, p);
                if fq >= 0 {
                    assert(s@.subrange(p, fq)[q - p] == s@[q as int]);
                    assert(!wf_name_bytes(s@.subrange(p, fq)));
                }
            }
            return None;
        }
        q = q + 1;
    }
    if q == s.len() {
        proof {
            lemma_find_quote_none(s@, pre@.len() as int);
        }
        return None;
    }
    proof {
        lemma_find_quote_found(s@, pre@.len() as int, q as int);
        assert(wf_name_bytes(s@.subrange(pre@.len() as int, q as int)));
    }
    let mut name: Vec<u8> = Vec::new();
    let mut k: usize = pre.len();
    while k < q
        invariant
            pre@.len() <= k <= q <= s@.len(),
            name@ == s@.subrange(pre@.len() as int, k as int),
        decreases q - k,
    {
        name.push(s[k]);
        proof {
            assert(s@.subrange(pre@.len() as int, k as int) + seq![s@[k as int]] =~= s@.subrange(
                pre@.len() as int,
                k as int + 1,
            ));
        }
        k = k + 1;
    }
    let ghost namev = s@.subrange(pre@.len() as int, q as int);
    let tidk = lit_tid_key();
    let pask = lit_passive_clk_key();
    if match_at(&s, q, &tidk) {
        proof {
            lemma_match_rest(s@, q as int, tid_key());
        }
        parse_active_rest(&s, name, q + tidk.len())
    } else if match_at(&s, q, &pask) {
        proof {
            lemma_match_rest(s@, q as int, passive_clk_key());
            lemma_match_rest_neg(s@, q as int, tid_key());
        }
        parse_passive_rest(&s, name, q + pask.len())
    } else {
        proof {
            lemma_match_rest_neg(s@, q as int, tid_key());
            lemma_match_rest_neg(s@, q as int, passive_clk_key());
        }
        None
    }
}

/// Decode the tail of an active message, `i1` standing just past the
/// `transition_id` key; `name` holds the already-scanned sender name.
fn parse_active_rest(s: &Vec<u8>, name: Vec<u8>, i1: usize) -> (r: Option<Event>)
    requires
        i1 <= s@.len(),
        wf_name_bytes(name@),
    ensures
        ({
            match parse_active_tail(s@, name@, i1 as int) {
                None => r is None,
                Some(w) => if wire_in_range(w) {
                    r matches Some(e) && event_matches(e, w)
                } else {
                    r is None
                },
            }
        }),
{
    proof {
        vstd::std_specs::vec::axiom_spec_len(s);
    }
    match scan_usize(s, i1) {
        None => None,
        Some((tid, e1)) => {
            let valk = lit_val_key();
            if !match_at(s, e1, &valk) {
                return None;
            }
            match scan_isize(s, e1 + valk.len()) {
                None => None,
                Some((v, e2)) => {
                    let clkk = lit_clk_key();
                    if !match_at(s, e2, &clkk) {
                        return None;
                    }
                    match scan_usize(s, e2 + clkk.len()) {
                        None => None,
                        Some((clk, e3)) => {
                            if e3 < s.len() && s[e3] == 0x7d && e3 + 1 == s.len() {
                                let feeding_node = string_from_ascii(name);
                                Some(
                                    Event::Active(
                                        ActiveEvent {
                                            feeding_node,
                                            transition_id: tid,
                                            value: v,
                                            clock: clk,
                                        },
                                    ),
                                )
                            } else {
                                None
                            }
                        },
                    }
                },
            }
        },
    }
}

/// Decode the tail of a passive message, `i1` standing just past the
/// `clock` key; `name` holds the already-scanned sender name.
fn parse_passive_rest(s: &Vec<u8>, name: Vec<u8>, i1: usize) -> (r: Option<Event>)
    requires
        i1 <= s@.len(),
        wf_name_bytes(name@),
    ensures
        ({
            match parse_passive_tail(s@, name@, i1 as int) {
                None => r is None,
                Some(w) => if wire_in_range(w) {
                    r matches Some(e) && event_matches(e, w)
                } else {
                    r is None
                },
            }
        }),
{
    proof {
        vstd::std_specs::vec::axiom_spec_len(s);
    }
    match scan_usize(s, i1) {
        None => None,
        Some((clk, e1)) => {
            if e1 < s.len() && s[e1] == 0x7d && e1 + 1 == s.len() {
                let feeding_node = string_from_ascii(name);
                Some(Event::Passive(PassiveEvent { feeding_node, clock: clk }))
            } else {
                None
            }
        },
    }
}

/// Where the first quote lies, it is a quote inside the sequence.
proof fn lemma_find_quote_bounds(s: Seq<u8>, i: int)
    requires
        0 <= i <= s.len(),
    ensures
        find_quote(s, i) == -1 || (i <= find_quote(s, i) < s.len() && s[find_quote(s, i)]
            == 0x22),
    decreases s.len() - i,
{
    if i < s.len() && s[i] != 0x22 {
        lemma_find_quote_bounds(s, i + 1);
    }
}

/// The first quote cannot come before a position every byte up to which is
/// not a quote.
proof fn lemma_find_quote_ge(s: Seq<u8>, i: int, m: int)
    requires
        0 <= i <= m <= s.len(),
        forall|j: int| i <= j < m ==> s[j] != 0x22,
    ensures
        find_quote(s, i) == -1 || find_quote(s, i) >= m,
    decreases m - i,
{
    if i < m {
        lemma_find_quote_ge(s, i + 1, m);
    } else {
        lemma_find_quote_bounds(s, i);
    }
}

/// Matching a pattern at `q` in `s` is the same as the pattern opening the
/// suffix of `s` that starts at `q`.
proof fn lemma_match_rest(s: Seq<u8>, q: int, pat: Seq<u8>)
    requires
        0 <= q <= s.len(),
        q + pat.len() <= s.len(),
        s.subrange(q, q + pat.len()) == pat,
    ensures
        s.subrange(q, s.len() as int).len() >= pat.len(),
        s.subrange(q, s.len() as int).subrange(0, pat.len() as int) == pat,
{
    assert(s.subrange(q, s.len() as int).subrange(0, pat.len() as int) =~= s.subrange(
        q,
        q + pat.len(),
    ));
}

/// And failing to match it refutes the same opening.
proof fn lemma_match_rest_neg(s: Seq<u8>, q: int, pat: Seq<u8>)
    requires
        0 <= q <= s.len(),
        !(q + pat.len() <= s.len() && s.subrange(q, q + pat.len()) == pat),
    ensures
        !(s.subrange(q, s.len() as int).len() >= pat.len() && s.subrange(
            q,
            s.len() as int,
        ).subrange(0, pat.len() as int) == pat),
{
    if q + pat.len() <= s.len() {
        assert(s.subrange(q, s.len() as int).subrange(0, pat.len() as int) =~= s.subrange(
            q,
            q + pat.len(),
        ));
    }
}

/// Digits of a decimal form: every byte is a digit and there is at least
/// one.
proof fn lemma_dec_u_digits(n: nat)
    ensures
        dec_u(n).len() >= 1,
        forall|i: int| 0 <= i < dec_u(n).len() ==> is_digit(#[trigger] dec_u(n)[i]),
    decreases n,
{
    if n >= 10 {
        lemma_dec_u_digits(n / 10);
    }
}

/// The decimal form of `n` reads back as `n`.
proof fn lemma_dec_u_val(n: nat)
    ensures
        digits_val(dec_u(n)) == n,
    decreases n,
{
    if n < 10 {
        assert(dec_u(n).len() == 1);
        assert(digits_val(Seq::<u8>::empty()) == 0);
        assert(dec_u(n).drop_last() =~= Seq::<u8>::empty());
        assert(digits_val(dec_u(n)) == digits_val(dec_u(n).drop_last()) * 10 + digit_val(
            dec_u(n).last(),
        ));
        assert(dec_u(n).last() == (0x30 + n) as u8);
        assert(((0x30 + n) as u8) as nat == 0x30 + n);
        assert(digit_val((0x30 + n) as u8) == n);
    } else {
        lemma_dec_u_val(n / 10);
        lemma_dec_u_digits(n);
        assert(dec_u(n).drop_last() =~= dec_u(n / 10));
        assert(digits_val(dec_u(n)) == digits_val(dec_u(n).drop_last()) * 10 + digit_val(
            dec_u(n).last(),
        ));
        assert(dec_u(n).last() == (0x30 + n % 10) as u8);
        assert(((0x30 + n % 10) as u8) as nat == 0x30 + n % 10);
        assert(digit_val((0x30 + n % 10) as u8) == n % 10);
        assert(digits_val(dec_u(n)) == digits_val(dec_u(n / 10)) * 10 + digit_val(dec_u(n).last()));
    }
}

/// A decimal form followed by a non-digit scans back to its value.
proof fn lemma_parse_num_exact(s: Seq<u8>, i: int, n: nat)
    requires
        0 <= i,
        i + dec_u(n).len() < s.len(),
        s.subrange(i, i + dec_u(n).len()) == dec_u(n),
        !is_digit(s[i + dec_u(n).len()]),
    ensures
        parse_num_at(s, i) == Some((n, i + dec_u(n).len() as int)),
{
    lemma_dec_u_digits(n);
    lemma_dec_u_val(n);
    let e = i + dec_u(n).len();
    assert forall|j: int| i <= j < e implies is_digit(s[j]) by {
        assert(s.subrange(i, e)[j - i] == s[j]);
        assert(is_digit(dec_u(n)[j - i]));
    }
    lemma_digits_end_at(s, i, e);
}

/// A signed decimal form followed by a non-digit scans back to its value.
proof fn lemma_parse_int_exact(s: Seq<u8>, i: int, v: int)
    requires
        0 <= i,
        i + dec_i(v).len() < s.len(),
        s.subrange(i, i + dec_i(v).len()) == dec_i(v),
        !is_digit(s[i + dec_i(v).len()]),
    ensures
        parse_int_at(s, i) == Some((v, i + dec_i(v).len() as int)),
{
    if v < 0 {
        let m = (-v) as nat;
        assert(s[i] == dec_i(v)[0]);
        assert(s.subrange(i + 1, i + 1 + dec_u(m).len() as int) =~= dec_u(m)) by {
            assert forall|j: int| 0 <= j < dec_u(m).len() implies s.subrange(
                i + 1,
                i + 1 + dec_u(m).len() as int,
            )[j] == dec_u(m)[j] by {
                assert(s.subrange(i, i + dec_i(v).len() as int)[j + 1] == s[i + 1 + j]);
                assert(dec_i(v)[j + 1] == dec_u(m)[j]);
            }
        }
        lemma_parse_num_exact(s, i + 1, m);
    } else {
        lemma_dec_u_digits(v as nat);
        assert(s[i] == dec_i(v)[0]) by {
            assert(s.subrange(i, i + dec_i(v).len() as int)[0] == s[i]);
        }
        assert(is_digit(s[i]));
        lemma_parse_num_exact(s, i, v as nat);
    }
}

/// Decoding the canonical line of an active message gives the message back:
/// serialization followed by deserialization is the identity on active
/// events.
#[verifier::rlimit(100)]
#[verifier::spinoff_prover]
pub proof fn lemma_active_round_trip(name: Seq<u8>, transition_id: nat, value: int, clock: nat)
    requires
        wf_name_bytes(name),
    ensures
        parse_wire(active_line(name, transition_id, value, clock)) == Some(
            WireForm::Active { name, transition_id, value, clock },
        ),
{
    let s = active_line(name, transition_id, value, clock);
    let p0 = feed_prefix();
    let d1 = dec_u(transition_id);
    let d2 = dec_i(value);
    let d3 = dec_u(clock);
    let q = p0.len() + name.len();
    let i1 = q + tid_key().len();
    let e1 = i1 + d1.len();
    let i2 = e1 + val_key().len();
    let e2 = i2 + d2.len();
    let i3 = e2 + clk_key().len();
    let e3 = i3 + d3.len();
    lemma_dec_u_digits(transition_id);
    lemma_dec_u_digits(clock);
    lemma_dec_u_digits((-value) as nat);
    lemma_dec_u_digits(value as nat);
    assert(s.len() == e3 + 1);
    assert(s.subrange(0, p0.len() as int) =~= p0);
    assert forall|j: int| p0.len() <= j < q implies s[j] != 0x22 by {
        assert(s[j] == name[j - p0.len()]);
    }
    assert(s[q as int] == tid_key()[0]);
    lemma_find_quote_found(s, p0.len() as int, q as int);
    assert(s.subrange(p0.len() as int, q as int) =~= name);
    let rest = s.subrange(q as int, s.len() as int);
    assert(rest.subrange(0, tid_key().len() as int) =~= tid_key());
    assert(s.subrange(i1 as int, e1 as int) =~= d1);
    assert(s[e1 as int] == val_key()[0]);
    lemma_parse_num_exact(s, i1 as int, transition_id);
    assert(s.subrange(e1 as int, i2 as int) =~= val_key());
    assert(s.subrange(i2 as int, e2 as int) =~= d2);
    assert(s[e2 as int] == clk_key()[0]);
    lemma_parse_int_exact(s, i2 as int, value);
    assert(s.subrange(e2 as int, i3 as int) =~= clk_key());
    assert(s.subrange(i3 as int, e3 as int) =~= d3);
    assert(s[e3 as int] == 0x7d);
    lemma_parse_num_exact(s, i3 as int, clock);
}

/// Decoding the canonical line of a passive message gives the message back.
#[verifier::rlimit(100)]
#[verifier::spinoff_prover]
pub proof fn lemma_passive_round_trip(name: Seq<u8>, clock: nat)
    requires
        wf_name_bytes(name),
    ensures
        parse_wire(passive_line(name, clock)) == Some(WireForm::Passive { name, clock }),
{
    let s = passive_line(name, clock);
    let p0 = feed_prefix();
    let d3 = dec_u(clock);
    let q = p0.len() + name.len();
    let i1 = q + passive_clk_key().len();
    let e1 = i1 + d3.len();
    lemma_dec_u_digits(clock);
    assert(s.len() == e1 + 1);
    assert(s.subrange(0, p0.len() as int) =~= p0);
    assert forall|j: int| p0.len() <= j < q implies s[j] != 0x22 by {
        assert(s[j] == name[j - p0.len()]);
    }
    assert(s[q as int] == passive_clk_key()[0]);
    lemma_find_quote_found(s, p0.len() as int, q as int);
    assert(s.subrange(p0.len() as int, q as int) =~= name);
    let rest = s.subrange(q as int, s.len() as int);
    // the line does not open with the active key: where it is long enough to
    // compare, the fourth byte differs
    if rest.len() >= tid_key().len() {
        assert(rest.subrange(0, tid_key().len() as int)[3] == s[q as int + 3]);
        assert(s[q as int + 3] == passive_clk_key()[3] || s[q as int + 3] != tid_key()[3]);
        if s.subrange(q as int, s.len() as int).subrange(0, tid_key().len() as int) == tid_key() {
            assert(s[q as int + 3] == tid_key()[3]);
            assert(passive_clk_key()[3] != tid_key()[3]);
            assert(s[q as int + 3] == passive_clk_key()[3]) by {
                if 3 < passive_clk_key().len() {
                    assert(s[q as int + 3] == (passive_clk_key() + d3 + close_brace())[3]);
                }
            }
        }
    }
    assert(rest.subrange(0, passive_clk_key().len() as int) =~= passive_clk_key());
    assert(s.subrange(i1 as int, e1 as int) =~= d3);
    assert(s[e1 as int] == 0x7d);
    lemma_parse_num_exact(s, i1 as int, clock);
}

/// ASCII bytes and characters stand for each other exactly.
pub proof fn lemma_name_chars_bytes(s: Seq<char>)
    requires
        wf_name(s),
    ensures
        chars_of(bytes_of(s)) == s,
        wf_name_bytes(bytes_of(s)),
{
    assert(chars_of(bytes_of(s)) =~= s);
}

/// The sender named in a line's envelope: the well-formed name the line
/// opens with, whatever follows it.  Both message shapes open the same way,
/// so this is all a router needs.
pub open spec fn parse_envelope_spec(s: Seq<u8>) -> Option<Seq<u8>> {
    let p = feed_prefix().len() as int;
    if s.len() < p || s.subrange(0, p) != feed_prefix() {
        None
    } else {
        let q = find_quote(s, p);
        if q < 0 {
            None
        } else {
            let name = s.subrange(p, q);
            if !wf_name_bytes(name) {
                None
            } else {
                Some(name)
            }
        }
    }
}

/// Decode only the envelope of a line: enough to route it to the right
/// inbox without reading the rest.
#[verifier::loop_isolation(false)]
pub fn parse_envelope(line: &str) -> (r: Option<GenericEvent>)
    ensures
        ({
            match parse_envelope_spec(line.spec_bytes()) {
                None => r is None,
                Some(name) => r matches Some(g) && g.feeding_node@ == chars_of(name),
            }
        }),
{
    let s = line.as_bytes_vec();
    proof {
        vstd::std_specs::vec::axiom_spec_len(&s);
    }
    let pre = lit_feed_prefix();
    if !match_at(&s, 0, &pre) {
        return None;
    }
    let mut q: usize = pre.len();
    while q < s.len() && s[q] != 0x22
        invariant
            pre@.len() <= q <= s@.len(),
            forall|j: int| pre@.len() <= j < q ==> s@[j] != 0x22,
            forall|j: int| pre@.len() <= j < q ==> wf_name_byte(s@[j]),
        decreases s@.len() - q,
    {
        if !(0x20 <= s[q] && s[q] <= 0x7e) || s[q] == 0x5c {
            proof {
                let p = pre@.len() as int;
                lemma_find_quote_bounds(s@, p);
                lemma_find_quote_ge(s@, p, q as int + 1);
                let fq = find_quote(s@, p);
                if fq >= 0 {
                    assert(s@.subrange(p, fq)[q - p] == s@[q as int]);
                    assert(!wf_name_bytes(s@.subrange(p, fq)));
                }
            }
            return None;
        }
        q = q + 1;
    }
    if q == s.len() {
        proof {
            lemma_find_quote_none(s@, pre@.len() as int);
        }
        return None;
    }
    proof {
        lemma_find_quote_found(s@, pre@.len() as int, q as int);
        assert(wf_name_bytes(s@.subrange(pre@.len() as int, q as int)));
    }
    let mut name: Vec<u8> = Vec::new();
    let mut k: usize = pre.len();
    while k < q
        invariant
            pre@.len() <= k <= q <= s@.len(),
            name@ == s@.subrange(pre@.len() as int, k as int),
        decreases q - k,
    {
        name.push(s[k]);
        proof {
            assert(s@.subrange(pre@.len() as int, k as int) + seq![s@[k as int]] =~= s@.subrange(
                pre@.len() as int,
                k as int + 1,
            ));
        }
        k = k + 1;
    }
    let feeding_node = string_from_ascii(name);
    Some(GenericEvent { feeding_node })
}

} // verus!
