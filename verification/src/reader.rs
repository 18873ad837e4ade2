//! The reader: a pull-based stream of records over a text.
use crate::data::{
    byte_weight, group_new_data, le_value, lemma_byte_weights, lemma_le_value_bound,
    lemma_parts_determine, DataType,
};
use crate::record::{lemma_token_byte, parse_token, token_byte, ReaderError, Record};
use crate::token::{tokens, Tokenizer};
use vstd::prelude::*;
use vstd::string::StringSliceAdditionalSpecFns;

verus! {

/// Configuration of a [`Reader`].
pub struct ReaderOptions {
    /// Pack runs of consecutive bytes into values of up to eight bytes.
    pub group: bool,
}

impl Default for ReaderOptions {
    /// Grouping is off.
    fn default() -> (options: Self)
        ensures
            options.group == false,
    {
        ReaderOptions { group: false }
    }
}

/// What a [`Reader`] stands for: the tokens it has not taken yet, whether it
/// has ended, whether it groups, and the load address of the next byte.
pub struct ReaderState {
    pub pending: Seq<Seq<u8>>,
    pub finished: bool,
    pub group: bool,
    pub addr: u64,
}

/// The load address `n` bytes after `addr`. Addresses are 64 bits wide and
/// wrap around at the top.
pub open spec fn wrapped_addr(addr: u64, n: nat) -> u64 {
    ((addr + n) % 0x1_0000_0000_0000_0000) as u64
}

/// Number of byte tokens that `pending` starts with, counted up to `limit`.
pub open spec fn byte_run(pending: Seq<Seq<u8>>, limit: nat) -> nat
    decreases limit,
{
    if limit == 0 || pending.len() == 0 || token_byte(pending[0]) is None {
        0
    } else {
        1 + byte_run(pending.skip(1), (limit - 1) as nat)
    }
}

/// The bytes that the first `n` tokens of `pending` stand for.
pub open spec fn run_bytes(pending: Seq<Seq<u8>>, n: nat) -> Seq<u8> {
    Seq::new(n, |i: int| token_byte(pending[i])->0)
}

impl ReaderState {
    /// The state of a fresh reader over `text`.
    pub open spec fn initial(text: Seq<u8>, group: bool) -> ReaderState {
        ReaderState { pending: tokens(text), finished: false, group, addr: 0 }
    }

    /// Number of tokens that the next call takes: none once the reader has
    /// ended or the text is exhausted; with grouping, a run of up to eight
    /// byte tokens; else one.
    pub open spec fn taken(self) -> nat {
        if self.finished || self.pending.len() == 0 {
            0
        } else if self.group && byte_run(self.pending, 8) > 0 {
            byte_run(self.pending, 8)
        } else {
            1
        }
    }

    /// What the next call yields: nothing once the reader has ended or the
    /// text is exhausted; for byte tokens the value packed from those taken,
    /// at the load address of the first; else what the first pending token
    /// parses to.
    pub open spec fn next_item(self) -> Option<Result<Record, ReaderError>> {
        if self.finished || self.pending.len() == 0 {
            None
        } else {
            match parse_token(self.pending[0], self.addr) {
                Ok(Record::Data { .. }) => Some(
                    Ok(
                        Record::Data {
                            addr: self.addr,
                            value: DataType::pack(run_bytes(self.pending, self.taken())),
                        },
                    ),
                ),
                other => Some(other),
            }
        }
    }

    /// The state after the next call: the taken tokens are gone; an address
    /// directive sets the load address and each byte taken advances it by
    /// one; an error, an end marker or the end of the text ends the reader
    /// for good.
    pub open spec fn next_state(self) -> ReaderState {
        if self.finished {
            self
        } else if self.pending.len() == 0 {
            ReaderState { finished: true, ..self }
        } else {
            let rest = self.pending.skip(self.taken() as int);
            match parse_token(self.pending[0], self.addr) {
                Err(_) => ReaderState { pending: rest, finished: true, ..self },
                Ok(Record::EndOfFile) => ReaderState { pending: rest, finished: true, ..self },
                Ok(Record::NewAddress(a)) => ReaderState { pending: rest, addr: a, ..self },
                Ok(Record::Data { .. }) => ReaderState {
                    pending: rest,
                    addr: wrapped_addr(self.addr, self.taken()),
                    ..self
                },
                Ok(Record::Comment) => ReaderState { pending: rest, ..self },
            }
        }
    }

    /// The state after `n` calls.
    pub open spec fn after(self, n: nat) -> ReaderState
        decreases n,
    {
        if n == 0 {
            self
        } else {
            self.after((n - 1) as nat).next_state()
        }
    }

    /// What call number `n` yields, counting from zero.
    pub open spec fn item(self, n: nat) -> Option<Result<Record, ReaderError>> {
        self.after(n).next_item()
    }
}

/// A reader of records from a text.
///
/// Each call of [`Reader::next`] takes tokens from the text and yields one
/// record, or the error that ends the stream.
pub struct Reader<'a> {
    /// Cursor over the tokens.
    token_iterator: Tokenizer<'a>,
    /// Reading has ended, by exhaustion or by an error.
    finished: bool,
    /// Configuration options.
    options: ReaderOptions,
    /// Load address of the next byte.
    current_addr: u64,
}

impl<'a> View for Reader<'a> {
    type V = ReaderState;

    closed spec fn view(&self) -> ReaderState {
        ReaderState {
            pending: self.token_iterator@,
            finished: self.finished,
            group: self.options.group,
            addr: self.current_addr,
        }
    }
}

impl<'a> Reader<'a> {
    /// Create a new reader with the specified options.
    pub fn new_with_options(string: &'a str, options: ReaderOptions) -> (reader: Self)
        ensures
            reader@ == ReaderState::initial(string.spec_bytes(), options.group),
    {
        Reader {
            token_iterator: Tokenizer::new(string),
            finished: false,
            options,
            current_addr: 0,
        }
    }

    /// Create a new reader with default options: grouping is off.
    pub fn new(string: &'a str) -> (reader: Self)
        ensures
            reader@ == ReaderState::initial(string.spec_bytes(), false),
    {
        Reader::new_with_options(string, ReaderOptions::default())
    }

    /// Takes the next token from the text, whether or not the reader has
    /// ended. `None`, and no change, when the text is exhausted.
    pub fn next_record(&mut self) -> (token: Option<&'a [u8]>)
        ensures
            match token {
                Some(t) => {
                    &&& old(self)@.pending.len() > 0
                    &&& t@ == old(self)@.pending[0]
                    &&& final(self)@ == (ReaderState {
                        pending: old(self)@.pending.skip(1),
                        ..old(self)@
                    })
                },
                None => old(self)@.pending.len() == 0 && final(self)@ == old(self)@,
            },
    {
        self.token_iterator.next()
    }

    /// Yields the next record, the error that ends the stream, or `None` once
    /// the stream has ended.
    ///
    /// No token of a text is empty, so the error is never
    /// [`ReaderError::InvalidSyntax`].
    pub fn next(&mut self) -> (item: Option<Result<Record, ReaderError>>)
        ensures
            item == old(self)@.next_item(),
            final(self)@ == old(self)@.next_state(),
            item != Some(Err::<Record, ReaderError>(ReaderError::InvalidSyntax)),
    {
        if self.finished {
            return None;
        }
        let ghost start = self@;
        proof {
            if start.pending.len() > 0 {
                self.token_iterator.lemma_words(0);
            }
        }
        match self.next_record() {
            None => {
                self.finished = true;
                None
            },
            Some(token) => {
                proof {
                    lemma_token_byte(token@, self.current_addr);
                }
                match Record::from_bytes(token, self.current_addr) {
                    Err(e) => {
                        self.finished = true;
                        Some(Err(e))
                    },
                    Ok(Record::EndOfFile) => {
                        self.finished = true;
                        Some(Ok(Record::EndOfFile))
                    },
                    Ok(Record::Comment) => Some(Ok(Record::Comment)),
                    Ok(Record::NewAddress(new_addr)) => {
                        self.current_addr = new_addr;
                        Some(Ok(Record::NewAddress(new_addr)))
                    },
                    Ok(Record::Data { addr, value }) => {
                        self.current_addr = self.current_addr.wrapping_add(1);
                        let value = if self.options.group {
                            self.group_run(value, Ghost(start))
                        } else {
                            value
                        };
                        proof {
                            lemma_first_byte(start.pending);
                        }
                        Some(Ok(Record::Data { addr, value }))
                    },
                }
            },
        }
    }

    /// Widens `first`, the byte just taken, by the byte tokens that follow,
    /// up to eight bytes in all. A token that is no byte ends the run and
    /// stays in place.
    fn group_run(&mut self, first: DataType, Ghost(start): Ghost<ReaderState>) -> (value: DataType)
        requires
            start.pending.len() > 0,
            token_byte(start.pending[0]) is Some,
            first == DataType::U8(token_byte(start.pending[0])->0),
            old(self)@ == (ReaderState {
                pending: start.pending.skip(1),
                addr: wrapped_addr(start.addr, 1),
                ..start
            }),
        ensures
            value == DataType::pack(run_bytes(start.pending, byte_run(start.pending, 8))),
            final(self)@ == (ReaderState {
                pending: start.pending.skip(byte_run(start.pending, 8) as int),
                addr: wrapped_addr(start.addr, byte_run(start.pending, 8)),
                ..start
            }),
    {
        let mut value = first;
        let ghost mut k: nat = 1;
        proof {
            lemma_first_byte(start.pending);
        }
        while value.width() < 8
            invariant
                1 <= k <= 8,
                k <= start.pending.len(),
                value.spec_width() == k,
                value == DataType::pack(run_bytes(start.pending, k)),
                byte_run(start.pending, 8) == k + byte_run(
                    start.pending.skip(k as int),
                    (8 - k) as nat,
                ),
                self@ == (ReaderState {
                    pending: start.pending.skip(k as int),
                    addr: wrapped_addr(start.addr, k),
                    ..start
                }),
            ensures
                k == byte_run(start.pending, 8),
            decreases 8 - k,
        {
            let next_byte = match self.token_iterator.peek() {
                None => None,
                Some(next_token) => {
                    proof {
                        lemma_token_byte(next_token@, self.current_addr);
                    }
                    match Record::from_bytes(next_token, self.current_addr) {
                        Ok(Record::Data { addr: _, value: DataType::U8(b) }) => Some(b),
                        _ => None,
                    }
                },
            };
            match next_byte {
                None => {
                    break;
                },
                Some(b) => {
                    proof {
                        let bytes = run_bytes(start.pending, k);
                        let more = run_bytes(start.pending, k + 1);
                        assert(more.drop_last() =~= bytes);
                        assert(start.pending.skip(k as int).skip(1) =~= start.pending.skip(
                            k as int + 1,
                        ));
                        lemma_le_value_bound(bytes);
                        lemma_le_value_bound(more);
                        lemma_byte_weights();
                    }
                    let wider = group_new_data(value, b);
                    proof {
                        lemma_parts_determine(wider);
                    }
                    value = wider;
                    self.current_addr = self.current_addr.wrapping_add(1);
                    self.token_iterator.next();
                    proof {
                        k = k + 1;
                    }
                },
            }
        }
        value
    }

    /// Skips `n` items and yields the one after them.
    ///
    /// The skipped items are read like any other: each moves the load address
    /// and takes its tokens, and an error among them ends the stream.
    pub fn nth(&mut self, n: usize) -> (item: Option<Result<Record, ReaderError>>)
        ensures
            item == old(self)@.item(n as nat),
            final(self)@ == old(self)@.after(n as nat + 1),
    {
        let mut i: usize = 0;
        while i < n
            invariant
                i <= n,
                self@ == old(self)@.after(i as nat),
            decreases n - i,
        {
            match self.next() {
                None => {
                    proof {
                        lemma_ended_stays(old(self)@.after(i as nat + 1), (n - i) as nat);
                        lemma_after_sum(old(self)@, i as nat + 1, (n - i) as nat);
                        lemma_ended_stays(old(self)@.after(i as nat + 1), (n - i - 1) as nat);
                        lemma_after_sum(old(self)@, i as nat + 1, (n - i - 1) as nat);
                    }
                    return None;
                },
                Some(_) => {},
            }
            i += 1;
        }
        self.next()
    }
}

/// A first pending byte token alone packs to that byte, and starts the run.
pub proof fn lemma_first_byte(pending: Seq<Seq<u8>>)
    requires
        pending.len() > 0,
        token_byte(pending[0]) is Some,
    ensures
        DataType::pack(run_bytes(pending, 1)) == DataType::U8(token_byte(pending[0])->0),
        byte_run(pending, 8) == 1 + byte_run(pending.skip(1), 7),
        byte_run(pending, 8) <= 8,
{
    let bytes = run_bytes(pending, 1);
    assert(le_value(bytes.drop_last()) == 0);
    let w = byte_weight((bytes.len() - 1) as nat);
    assert(bytes.last() as nat * w == bytes[0]) by (nonlinear_arith)
        requires
            w == 1,
            bytes.last() == bytes[0],
    ;
    lemma_byte_run_bound(pending.skip(1), 7);
}

/// A run is no longer than its limit, nor than the tokens at hand.
pub proof fn lemma_byte_run_bound(pending: Seq<Seq<u8>>, limit: nat)
    ensures
        byte_run(pending, limit) <= limit,
        byte_run(pending, limit) <= pending.len(),
    decreases limit,
{
    if !(limit == 0 || pending.len() == 0 || token_byte(pending[0]) is None) {
        lemma_byte_run_bound(pending.skip(1), (limit - 1) as nat);
    }
}

/// Calls add up: `m + n` calls are `m` calls and then `n` more.
pub proof fn lemma_after_sum(s: ReaderState, m: nat, n: nat)
    ensures
        s.after(m + n) == s.after(m).after(n),
    decreases n,
{
    if n > 0 {
        lemma_after_sum(s, m, (n - 1) as nat);
    }
}

/// A reader that has ended stays as it is, whatever the number of calls.
pub proof fn lemma_ended_stays(s: ReaderState, n: nat)
    requires
        s.finished,
    ensures
        s.after(n) == s,
        s.item(n) is None,
    decreases n,
{
    if n > 0 {
        lemma_ended_stays(s, (n - 1) as nat);
    }
}

} // verus!
