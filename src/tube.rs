//! The decisions behind every tube operation.
//!
//! A transport pulls bytes off the wire and pushes bytes onto it; everything
//! it decides between those two acts is here, as steps over its [`Buffer`]:
//! keeping what a read brought and whether to read again, where a delimiter
//! cuts the buffered bytes, when a drain stops, and how a line is framed.

use crate::buffer::{Buffer, after_adds, lemma_after_adds};
use vstd::prelude::*;

verus! {

/// The size of one read while filling a buffer.
pub const CHUNK_SIZE: usize = 1024;

/// The newline byte that ends a line.
pub const NEWLINE: u8 = 10;

/// `needle` stands in `haystack` starting at `i`.
pub open spec fn occurs_at(haystack: Seq<u8>, needle: Seq<u8>, i: int) -> bool {
    &&& 0 <= i
    &&& i + needle.len() <= haystack.len()
    &&& haystack.subrange(i, i + needle.len()) == needle
}

/// `i` is the left-most place where `needle` stands in `haystack`.
pub open spec fn first_occurrence(haystack: Seq<u8>, needle: Seq<u8>, i: int) -> bool {
    &&& occurs_at(haystack, needle, i)
    &&& forall|j: int| 0 <= j < i ==> !occurs_at(haystack, needle, j)
}

/// `needle` stands nowhere in `haystack`.
pub open spec fn absent(haystack: Seq<u8>, needle: Seq<u8>) -> bool {
    forall|j: int| !occurs_at(haystack, needle, j)
}

/// Whether `needle` stands in `haystack` at `i`, compared byte by byte.
fn matches_at(haystack: &[u8], needle: &[u8], i: usize) -> (r: bool)
    requires
        i + needle@.len() <= haystack@.len(),
    ensures
        r == occurs_at(haystack@, needle@, i as int),
{
    let hl = haystack.len();
    let mut k: usize = 0;
    while k < needle.len()
        invariant
            hl == haystack@.len(),
            k <= needle@.len(),
            i + needle@.len() <= haystack@.len(),
            forall|m: int| 0 <= m < k ==> haystack@[i + m] == needle@[m],
        decreases needle@.len() - k,
    {
        if haystack[i + k] != needle[k] {
            assert(haystack@.subrange(i as int, i + needle@.len())[k as int] != needle@[k as int]);
            return false;
        }
        k = k + 1;
    }
    assert(haystack@.subrange(i as int, i + needle@.len()) == needle@);
    true
}

/// The left-most position at which `needle` stands in `haystack` as a
/// contiguous run, if any. An empty needle stands at position zero.
pub fn find_subsequence(haystack: &[u8], needle: &[u8]) -> (r: Option<usize>)
    ensures
        match r {
            Some(p) => first_occurrence(haystack@, needle@, p as int),
            None => absent(haystack@, needle@),
        },
{
    if needle.len() > haystack.len() {
        return None;
    }
    let last = haystack.len() - needle.len();
    let mut i: usize = 0;
    loop
        invariant
            last + needle@.len() == haystack@.len(),
            i <= last,
            forall|j: int| 0 <= j < i ==> !occurs_at(haystack@, needle@, j),
        decreases last - i,
    {
        if matches_at(haystack, needle, i) {
            return Some(i);
        }
        if i == last {
            return None;
        }
        i = i + 1;
    }
}

/// Where a fill loop stands after one read.
#[derive(PartialEq, Eq, Structural)]
pub enum Fill {
    /// The read filled a whole chunk: more may be waiting, read again.
    More(usize),
    /// The stream has nothing more right now: the fill returns this total.
    Done(usize),
}

/// The total a fill loop carries after a read brought `chunk`.
pub open spec fn fill_next(total: nat, chunk: Option<Seq<u8>>) -> Fill {
    match chunk {
        Some(c) => if c.len() < CHUNK_SIZE {
            Fill::Done((total + c.len()) as usize)
        } else {
            Fill::More((total + c.len()) as usize)
        },
        None => Fill::Done(total as usize),
    }
}

/// One read of a fill loop. `chunk` is what the read brought, or `None` when
/// its timeout ran out first, which ends the loop without an error.
///
/// The bytes go to the tail of the buffer; the loop reads again only after a
/// full chunk, since a shorter read means the stream is drained for now.
pub fn absorb_read(buf: &mut Buffer, total: usize, chunk: Option<Vec<u8>>) -> (r: Fill)
    requires
        match chunk {
            Some(c) => {
                &&& old(buf)@.len() + c@.len() <= usize::MAX
                &&& total + c@.len() <= usize::MAX
            },
            None => true,
        },
    ensures
        r == fill_next(total as nat, match chunk { Some(c) => Some(c@), None => None }),
        final(buf)@ == match chunk {
            Some(c) => old(buf)@ + c@,
            None => old(buf)@,
        },
{
    match chunk {
        Some(c) => {
            let n = c.len();
            buf.add(c);
            if n < CHUNK_SIZE {
                Fill::Done(total + n)
            } else {
                Fill::More(total + n)
            }
        },
        None => Fill::Done(total),
    }
}

/// The scan of `recvuntil`: when `delim` stands in the buffered bytes, drains
/// and returns everything up to and including its left-most occurrence.
/// Otherwise leaves the buffer as it is and returns `None`, and the caller
/// fills again.
pub fn take_through(buf: &mut Buffer, delim: &[u8]) -> (r: Option<Vec<u8>>)
    ensures
        match r {
            Some(v) => {
                &&& v@.len() >= delim@.len()
                &&& first_occurrence(old(buf)@, delim@, v@.len() - delim@.len())
                &&& v@ == old(buf)@.subrange(0, v@.len() as int)
                &&& final(buf)@ == old(buf)@.subrange(v@.len() as int, old(buf)@.len() as int)
            },
            None => {
                &&& absent(old(buf)@, delim@)
                &&& final(buf)@ == old(buf)@
            },
        },
{
    let held = buf.peek();
    let held_len = held.len();
    match find_subsequence(held.as_slice(), delim) {
        Some(p) => {
            assert(p + delim@.len() <= held_len);
            let cut = p + delim.len();
            if cut == 0 {
                assert(old(buf)@.subrange(0, 0) =~= Seq::<u8>::empty());
                assert(old(buf)@.subrange(0, old(buf)@.len() as int) == old(buf)@);
                Some(Vec::new())
            } else {
                let v = buf.get(cut);
                Some(v)
            }
        },
        None => None,
    }
}

/// The first step of `clean`: with a zero timeout it drains and returns what
/// is already buffered, reading nothing (`Some`); with any other timeout it
/// leaves the buffer as it is and asks for fills first (`None`).
pub fn clean_start(buf: &mut Buffer, zero_timeout: bool) -> (r: Option<Vec<u8>>)
    ensures
        zero_timeout ==> r is Some && r->0@ == old(buf)@ && final(buf)@ == Seq::<u8>::empty(),
        !zero_timeout ==> r is None && final(buf)@ == old(buf)@,
{
    if zero_timeout {
        Some(buf.get(0))
    } else {
        None
    }
}

/// What a drain such as `clean` does after a fill reported `filled` bytes, or
/// failed (`None`): after a fill that brought bytes it fills again (`None`);
/// otherwise it drains and returns everything gathered.
pub fn drain_after(buf: &mut Buffer, filled: Option<usize>) -> (r: Option<Vec<u8>>)
    ensures
        match filled {
            Some(n) if n > 0 => r is None && final(buf)@ == old(buf)@,
            _ => r is Some && r->0@ == old(buf)@ && final(buf)@ == Seq::<u8>::empty(),
        },
{
    match filled {
        Some(n) if n > 0 => None,
        _ => Some(buf.get(0)),
    }
}

/// `data` with the newline that ends a line appended.
pub fn with_newline(data: Vec<u8>) -> (r: Vec<u8>)
    ensures
        r@ == data@.push(NEWLINE),
{
    let mut data = data;
    data.push(NEWLINE);
    data
}

/// What the writer side of an interactive session has just seen.
pub enum BridgeEvent {
    /// The operator entered a line.
    Line(Vec<u8>),
    /// The prompt ended: end of input, or an interrupt.
    InputEnded,
    /// The last line went out.
    Sent,
    /// Sending the last line failed.
    SendFailed,
}

/// What the writer side of an interactive session does next.
pub enum BridgeAction {
    /// Send these bytes to the peer.
    Send(Vec<u8>),
    /// Read the next line at the prompt.
    Prompt,
    /// Tear the whole session down, reader included.
    Shutdown,
}

/// The writer side of an interactive session: each line entered goes out with
/// a newline; the session ends when the prompt ends or a send fails.
pub fn bridge_step(event: BridgeEvent) -> (r: BridgeAction)
    ensures
        match event {
            BridgeEvent::Line(l) => r is Send && r->Send_0@ == l@.push(NEWLINE),
            BridgeEvent::Sent => r is Prompt,
            BridgeEvent::InputEnded => r is Shutdown,
            BridgeEvent::SendFailed => r is Shutdown,
        },
{
    match event {
        BridgeEvent::Line(l) => BridgeAction::Send(with_newline(l)),
        BridgeEvent::Sent => BridgeAction::Prompt,
        BridgeEvent::InputEnded => BridgeAction::Shutdown,
        BridgeEvent::SendFailed => BridgeAction::Shutdown,
    }
}

/// Where a listener binds: the given host, else every interface
/// (`0.0.0.0`); the given port, else zero, which lets the system pick one.
pub fn listen_endpoint(host: Option<String>, port: Option<u16>) -> (r: (String, u16))
    ensures
        r.0@ == match host {
            Some(h) => h@,
            None => "0.0.0.0"@,
        },
        r.1 == match port {
            Some(p) => p,
            None => 0u16,
        },
{
    let h = match host {
        Some(h) => h,
        None => "0.0.0.0".to_owned(),
    };
    let p: u16 = match port {
        Some(p) => p,
        None => 0,
    };
    (h, p)
}

/// A line framed by `with_newline` reaches the peer's buffer in any number of reads
/// (each read appends, as `absorb_read` does): the newline scan then finds the
/// line's own newline first, so `take_through` with a newline delimiter hands
/// back exactly the framed line, byte for byte.
pub proof fn law_line_round_trip(x: Seq<u8>, chunks: Seq<Seq<u8>>)
    requires
        chunks.flatten() == x.push(NEWLINE),
        !x.contains(NEWLINE),
    ensures
        !absent(after_adds(Seq::empty(), chunks), seq![NEWLINE]),
        forall|v: Seq<u8>|
            v.len() >= 1 && first_occurrence(after_adds(Seq::empty(), chunks), seq![NEWLINE], v.len() - 1)
                && v == after_adds(Seq::empty(), chunks).subrange(0, v.len() as int)
                ==> v == x.push(NEWLINE),
{
    lemma_after_adds(Seq::empty(), chunks);
    let all = after_adds(Seq::empty(), chunks);
    assert(Seq::<u8>::empty() + chunks.flatten() == chunks.flatten());
    assert(all == x.push(NEWLINE));
    let n = x.len() as int;
    assert(all.subrange(n, n + 1) == seq![NEWLINE]);
    assert(occurs_at(all, seq![NEWLINE], n));
    assert forall|j: int| 0 <= j < n implies !occurs_at(all, seq![NEWLINE], j) by {
        if occurs_at(all, seq![NEWLINE], j) {
            assert(all.subrange(j, j + 1)[0] == NEWLINE);
            assert(x[j] == NEWLINE);
        }
    }
    assert forall|v: Seq<u8>|
        v.len() >= 1 && first_occurrence(all, seq![NEWLINE], v.len() - 1) && v == all.subrange(
            0,
            v.len() as int,
        ) implies v == x.push(NEWLINE) by {
        assert(v.len() - 1 == n);
        assert(all.subrange(0, all.len() as int) == all);
    }
}

} // verus!
