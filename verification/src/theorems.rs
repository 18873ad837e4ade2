//! What holds of every stream of records, proved over [`ReaderState`].
use crate::data::{le_value, lemma_byte_weights, lemma_le_value_bound, DataType};
use crate::reader::{
    byte_run, lemma_after_sum, lemma_byte_run_bound, lemma_ended_stays, lemma_first_byte,
    run_bytes, wrapped_addr, ReaderState,
};
use crate::record::{lemma_token_byte, parse_token, token_byte, ReaderError, Record};
use crate::token::{
    is_space, leading_spaces, lemma_blank_has_no_tokens, lemma_leading_spaces,
    lemma_leading_spaces_is, lemma_leading_word_is, tokens,
};
use vstd::prelude::*;

verus! {

/// The first `n` tokens of `pending` are byte tokens.
pub open spec fn starts_with_bytes(pending: Seq<Seq<u8>>, n: nat) -> bool {
    &&& n <= pending.len()
    &&& forall|i: int| 0 <= i < n ==> token_byte(#[trigger] pending[i]) is Some
}

/// The byte tokens that `pending` starts with are exactly its first `n`: the
/// token after them, if there is one, is no byte.
pub open spec fn byte_run_is(pending: Seq<Seq<u8>>, n: nat) -> bool {
    &&& starts_with_bytes(pending, n)
    &&& n < pending.len() ==> token_byte(pending[n as int]) is None
}

/// Whitespace before the first token counts for nothing: a text has the
/// tokens of what follows its leading whitespace, or any part of it.
pub proof fn theorem_leading_whitespace_ignored(s: Seq<u8>, n: nat)
    requires
        n <= s.len(),
        forall|i: int| 0 <= i < n ==> is_space(#[trigger] s[i]),
    ensures
        tokens(s) == tokens(s.skip(n as int)),
{
    let rest = s.skip(n as int);
    let m = leading_spaces(rest);
    lemma_leading_spaces(rest);
    assert forall|i: int| 0 <= i < n + m implies is_space(#[trigger] s[i]) by {
        if i >= n {
            assert(s[i] == rest[i - n]);
        }
    }
    if n + m < s.len() {
        assert(s[(n + m) as int] == rest[m as int]);
    }
    lemma_leading_spaces_is(s, n + m);
    assert(s.skip((n + m) as int) =~= rest.skip(m as int));
}

/// A text that starts with a token has that token first, and then the tokens
/// of the rest: the first token is the run of bytes up to the first
/// whitespace or the end.
pub proof fn theorem_first_token(s: Seq<u8>, n: nat)
    requires
        0 < n <= s.len(),
        forall|i: int| 0 <= i < n ==> !is_space(#[trigger] s[i]),
        n < s.len() ==> is_space(s[n as int]),
    ensures
        tokens(s) == seq![s.take(n as int)] + tokens(s.skip(n as int)),
{
    lemma_leading_spaces_is(s, 0);
    lemma_leading_word_is(s, n);
    assert(s.skip(0) =~= s);
}

/// A text of nothing but whitespace yields no record: every call, from the
/// first on, gives `None`.
pub proof fn theorem_blank_text_is_empty(text: Seq<u8>, group: bool, n: nat)
    requires
        forall|i: int| 0 <= i < text.len() ==> is_space(#[trigger] text[i]),
    ensures
        ReaderState::initial(text, group).item(n) is None,
{
    let s = ReaderState::initial(text, group);
    lemma_blank_has_no_tokens(text);
    if n > 0 {
        assert(s.after(1) == s.after(0).next_state());
        lemma_ended_stays(s.after(1), (n - 1) as nat);
        lemma_after_sum(s, 1, (n - 1) as nat);
    }
}

/// Without grouping, `n` calls on a reader whose text goes on with at least
/// `n` byte tokens take those `n` tokens and advance the load address by `n`.
pub proof fn lemma_ungrouped_bytes_taken(s: ReaderState, n: nat)
    requires
        !s.finished,
        !s.group,
        starts_with_bytes(s.pending, n),
    ensures
        s.after(n) == (ReaderState {
            pending: s.pending.skip(n as int),
            addr: wrapped_addr(s.addr, n),
            ..s
        }),
    decreases n,
{
    if n == 0 {
        assert(s.pending.skip(0) =~= s.pending);
    } else {
        let m = (n - 1) as nat;
        lemma_ungrouped_bytes_taken(s, m);
        let t = s.after(m);
        assert(t.pending[0] == s.pending[m as int]);
        lemma_token_byte(t.pending[0], t.addr);
        assert(t.pending.skip(1) =~= s.pending.skip(n as int));
    }
}

/// Without grouping, every byte token is a record of its own. When the text
/// goes on with byte tokens, call number `n` yields the byte of token number
/// `n` at the load address plus `n`.
pub proof fn theorem_ungrouped_bytes(s: ReaderState, n: nat)
    requires
        !s.finished,
        !s.group,
        starts_with_bytes(s.pending, n + 1),
    ensures
        s.item(n) == Some(
            Ok::<Record, ReaderError>(
                Record::Data {
                    addr: wrapped_addr(s.addr, n),
                    value: DataType::U8(token_byte(s.pending[n as int])->0),
                },
            ),
        ),
        s.addr + n <= u64::MAX ==> wrapped_addr(s.addr, n) == s.addr + n,
{
    lemma_ungrouped_bytes_taken(s, n);
    let t = s.after(n);
    assert(t.pending[0] == s.pending[n as int]);
    lemma_token_byte(t.pending[0], t.addr);
    lemma_first_byte(t.pending);
}

/// The length of a run of byte tokens under a limit: the run itself where it
/// is shorter than the limit, else the limit.
pub proof fn lemma_byte_run_is(pending: Seq<Seq<u8>>, n: nat, limit: nat)
    requires
        byte_run_is(pending, n),
    ensures
        byte_run(pending, limit) == if n < limit {
            n
        } else {
            limit
        },
    decreases limit,
{
    if limit > 0 && n > 0 {
        let rest = pending.skip(1);
        assert forall|i: int| 0 <= i < n - 1 implies token_byte(#[trigger] rest[i]) is Some by {
            assert(rest[i] == pending[i + 1]);
        }
        if n < pending.len() {
            assert(rest[n - 1] == pending[n as int]);
        }
        lemma_byte_run_is(rest, (n - 1) as nat, (limit - 1) as nat);
    }
}

/// Without grouping, the byte tokens that follow an address directive come
/// out one by one: byte number `n` after the directive stands at the
/// directive's address plus `n`.
pub proof fn theorem_bytes_after_directive(s: ReaderState, a: u64, n: nat)
    requires
        !s.finished,
        !s.group,
        s.pending.len() > 0,
        parse_token(s.pending[0], s.addr) == Ok::<Record, ReaderError>(Record::NewAddress(a)),
        starts_with_bytes(s.pending.skip(1), n + 1),
    ensures
        s.item(0) == Some(Ok::<Record, ReaderError>(Record::NewAddress(a))),
        s.item(n + 1) == Some(
            Ok::<Record, ReaderError>(
                Record::Data {
                    addr: wrapped_addr(a, n),
                    value: DataType::U8(token_byte(s.pending[n as int + 1])->0),
                },
            ),
        ),
        a + n <= u64::MAX ==> wrapped_addr(a, n) == a + n,
{
    theorem_address_directive(s, a);
    lemma_after_sum(s, 1, n);
    theorem_ungrouped_bytes(s.after(1), n);
}

/// A run of byte tokens without its first `m` tokens is a run of the rest.
pub proof fn lemma_byte_run_is_skip(pending: Seq<Seq<u8>>, n: nat, m: nat)
    requires
        byte_run_is(pending, n),
        m <= n,
    ensures
        byte_run_is(pending.skip(m as int), (n - m) as nat),
{
    let rest = pending.skip(m as int);
    assert forall|i: int| 0 <= i < n - m implies token_byte(#[trigger] rest[i]) is Some by {
        assert(rest[i] == pending[i + m]);
    }
    if n - m < rest.len() {
        assert(rest[n - m] == pending[n as int]);
    }
}

/// With grouping, a call on a reader whose text goes on with eight byte
/// tokens or more takes eight of them.
pub proof fn lemma_full_group_taken(s: ReaderState, run: nat)
    requires
        !s.finished,
        s.group,
        byte_run_is(s.pending, run),
        8 <= run,
    ensures
        s.next_state() == (ReaderState {
            pending: s.pending.skip(8),
            addr: wrapped_addr(s.addr, 8),
            ..s
        }),
{
    lemma_byte_run_is(s.pending, run, 8);
    lemma_token_byte(s.pending[0], s.addr);
}

/// With grouping, `k` calls on a reader whose text goes on with a run of
/// `run` byte tokens, `8 * k` of them or more, take `8 * k` tokens and
/// advance the load address by as much.
pub proof fn lemma_grouped_bytes_taken(s: ReaderState, run: nat, k: nat)
    requires
        !s.finished,
        s.group,
        byte_run_is(s.pending, run),
        8 * k <= run,
    ensures
        s.after(k) == (ReaderState {
            pending: s.pending.skip(8 * k as int),
            addr: wrapped_addr(s.addr, 8 * k),
            ..s
        }),
    decreases k,
{
    if k == 0 {
        assert(s.pending.skip(0) =~= s.pending);
    } else {
        let j = (k - 1) as nat;
        lemma_grouped_bytes_taken(s, run, j);
        let t = s.after(j);
        lemma_byte_run_is_skip(s.pending, run, 8 * j);
        lemma_full_group_taken(t, (run - 8 * j) as nat);
        assert(t.pending.skip(8) =~= s.pending.skip(8 * k as int));
    }
}

/// With grouping, a run of `run` byte tokens comes out in groups of eight,
/// the last one holding what is left. Group number `k` starts at the load
/// address plus `8 * k`, the bytes of the groups before it, and packs its
/// bytes little-endian in the order read: its value is the sum of
/// `byte[i] * 256^i`.
pub proof fn theorem_grouped_bytes(s: ReaderState, run: nat, k: nat)
    requires
        !s.finished,
        s.group,
        byte_run_is(s.pending, run),
        8 * k < run,
    ensures
        ({
            let width = if run - 8 * k < 8 {
                (run - 8 * k) as nat
            } else {
                8
            };
            let bytes = run_bytes(s.pending, run).subrange(8 * k as int, 8 * k + width as int);
            &&& s.item(k) == Some(
                Ok::<Record, ReaderError>(
                    Record::Data {
                        addr: wrapped_addr(s.addr, 8 * k),
                        value: DataType::pack(bytes),
                    },
                ),
            )
            &&& DataType::pack(bytes).spec_width() == width
            &&& DataType::pack(bytes).spec_value() == le_value(bytes)
            &&& DataType::pack(bytes).wf()
        }),
        s.addr + 8 * k <= u64::MAX ==> wrapped_addr(s.addr, 8 * k) == s.addr + 8 * k,
{
    let width = if run - 8 * k < 8 {
        (run - 8 * k) as nat
    } else {
        8
    };
    let bytes = run_bytes(s.pending, run).subrange(8 * k as int, 8 * k + width as int);
    lemma_grouped_bytes_taken(s, run, k);
    let t = s.after(k);
    lemma_byte_run_is_skip(s.pending, run, 8 * k);
    lemma_byte_run_is(t.pending, (run - 8 * k) as nat, 8);
    lemma_token_byte(t.pending[0], t.addr);
    assert(run_bytes(t.pending, width) =~= bytes);
    lemma_le_value_bound(bytes);
    lemma_byte_weights();
}

/// With grouping, the run of `run` byte tokens that follows an address
/// directive comes out in groups of eight, the last one holding what is left.
/// Group number `k` starts at the directive's address plus `8 * k` and packs
/// its bytes little-endian in the order read.
pub proof fn theorem_groups_after_directive(s: ReaderState, a: u64, run: nat, k: nat)
    requires
        !s.finished,
        s.group,
        s.pending.len() > 0,
        parse_token(s.pending[0], s.addr) == Ok::<Record, ReaderError>(Record::NewAddress(a)),
        byte_run_is(s.pending.skip(1), run),
        8 * k < run,
    ensures
        s.item(0) == Some(Ok::<Record, ReaderError>(Record::NewAddress(a))),
        ({
            let width = if run - 8 * k < 8 {
                (run - 8 * k) as nat
            } else {
                8
            };
            let bytes = run_bytes(s.pending.skip(1), run).subrange(
                8 * k as int,
                8 * k + width as int,
            );
            &&& s.item(k + 1) == Some(
                Ok::<Record, ReaderError>(
                    Record::Data { addr: wrapped_addr(a, 8 * k), value: DataType::pack(bytes) },
                ),
            )
            &&& DataType::pack(bytes).spec_width() == width
            &&& DataType::pack(bytes).spec_value() == le_value(bytes)
        }),
        a + 8 * k <= u64::MAX ==> wrapped_addr(a, 8 * k) == a + 8 * k,
{
    theorem_address_directive(s, a);
    lemma_after_sum(s, 1, k);
    lemma_token_byte(s.pending[0], s.addr);
    theorem_grouped_bytes(s.after(1), run, k);
}

/// The end is final: once a call has yielded `None` or an error, every later
/// call yields `None`.
pub proof fn theorem_end_is_final(s: ReaderState, i: nat, j: nat)
    requires
        i < j,
        s.item(i) is None || s.item(i) matches Some(Err(_)),
    ensures
        s.item(j) is None,
{
    let t = s.after(i);
    lemma_ended_stays(s.after(i + 1), (j - i - 1) as nat);
    lemma_after_sum(s, i + 1, (j - i - 1) as nat);
}

/// An address directive is yielded as it stands and sets the load address:
/// a value that the next call yields carries the address of the directive.
pub proof fn theorem_address_directive(s: ReaderState, a: u64)
    requires
        !s.finished,
        s.pending.len() > 0,
        parse_token(s.pending[0], s.addr) == Ok::<Record, ReaderError>(Record::NewAddress(a)),
    ensures
        s.item(0) == Some(Ok::<Record, ReaderError>(Record::NewAddress(a))),
        s.after(1) == (ReaderState { pending: s.pending.skip(1), addr: a, ..s }),
        s.item(1) matches Some(Ok(Record::Data { addr, .. })) ==> addr == a,
{
    lemma_token_byte(s.pending[0], s.addr);
}

/// Every value that a call yields stands at the load address that the reader
/// had before the call, which then moves on by the width of the value: the
/// number of byte tokens taken, one to eight, whose bytes the value packs.
pub proof fn theorem_data_item(s: ReaderState)
    requires
        s.next_item() matches Some(Ok(Record::Data { .. })),
    ensures
        s.next_item() == Some(
            Ok::<Record, ReaderError>(
                Record::Data {
                    addr: s.addr,
                    value: DataType::pack(run_bytes(s.pending, s.taken())),
                },
            ),
        ),
        1 <= s.taken() <= 8,
        !s.group ==> s.taken() == 1,
        starts_with_bytes(s.pending, s.taken()),
        DataType::pack(run_bytes(s.pending, s.taken())).spec_width() == s.taken(),
        DataType::pack(run_bytes(s.pending, s.taken())).spec_value() == le_value(
            run_bytes(s.pending, s.taken()),
        ),
        DataType::pack(run_bytes(s.pending, s.taken())).wf(),
        s.next_state().addr == wrapped_addr(s.addr, s.taken()),
        s.next_state().pending == s.pending.skip(s.taken() as int),
        !s.next_state().finished,
{
    lemma_token_byte(s.pending[0], s.addr);
    lemma_first_byte(s.pending);
    lemma_byte_run_bound(s.pending, 8);
    lemma_byte_run_prefix(s.pending, 8);
    lemma_le_value_bound(run_bytes(s.pending, s.taken()));
    lemma_byte_weights();
}

/// The tokens that a run counts are byte tokens.
pub proof fn lemma_byte_run_prefix(pending: Seq<Seq<u8>>, limit: nat)
    ensures
        starts_with_bytes(pending, byte_run(pending, limit)),
    decreases limit,
{
    lemma_byte_run_bound(pending, limit);
    if !(limit == 0 || pending.len() == 0 || token_byte(pending[0]) is None) {
        let rest = pending.skip(1);
        lemma_byte_run_prefix(rest, (limit - 1) as nat);
        assert forall|i: int| 0 <= i < byte_run(pending, limit) implies token_byte(
            #[trigger] pending[i],
        ) is Some by {
            if i > 0 {
                assert(pending[i] == rest[i - 1]);
            }
        }
    }
}

} // verus!
