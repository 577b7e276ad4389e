//! Packing transcript fragments into as few byte-bounded messages as possible.
use vstd::prelude::*;
use vstd::seq_lib::lemma_flatten_concat;
use vstd::string::StringExecFns;
use vstd::utf8::*;

use crate::formatter::{
    greedy_chunks, lemma_greedy_chunks, split_safe_utf8, BUDGET_TOO_SMALL, INVALID_BUDGET,
};
use crate::utf8_text::{
    byte_len, chars_fit, lemma_byte_len_take_monotone, lemma_encode_concat, lemma_encode_single,
    lemma_short_chars_fit, str_views, string_views,
};

verus! {

broadcast use vstd::utf8::group_utf8_lib;

/// Inserted between two fragments packed into one message.
pub const SEPARATOR: &'static str = "\n";

/// `buf` with `piece` appended, separated only when `buf` holds text.
pub open spec fn append_piece(buf: Seq<char>, piece: Seq<char>) -> Seq<char> {
    if buf.len() == 0 {
        piece
    } else {
        buf + seq!['\n'] + piece
    }
}

/// The message built by appending `pieces` in order to an empty buffer.
pub open spec fn join_pieces(pieces: Seq<Seq<char>>) -> Seq<char>
    decreases pieces.len(),
{
    if pieces.len() == 0 {
        seq![]
    } else {
        append_piece(join_pieces(pieces.drop_last()), pieces.last())
    }
}

/// The messages built from groups of pieces.
pub open spec fn messages_of(groups: Seq<Seq<Seq<char>>>) -> Seq<Seq<char>> {
    groups.map_values(|g: Seq<Seq<char>>| join_pieces(g))
}

/// What a flush emits: the buffered pieces as one group, unless they hold no text.
pub open spec fn flush_groups(pending: Seq<Seq<char>>) -> Seq<Seq<Seq<char>>> {
    if join_pieces(pending).len() == 0 {
        seq![]
    } else {
        seq![pending]
    }
}

/// Each chunk as a group of its own.
pub open spec fn singletons(chunks: Seq<Seq<char>>) -> Seq<Seq<Seq<char>>> {
    chunks.map_values(|c: Seq<char>| seq![c])
}

/// Groups emitted when `frag` arrives while `pending` is buffered.
pub open spec fn step_groups(pending: Seq<Seq<char>>, frag: Seq<char>, budget: nat) -> Seq<
    Seq<Seq<char>>,
> {
    if byte_len(frag) > budget {
        flush_groups(pending) + singletons(greedy_chunks(frag, budget))
    } else if byte_len(append_piece(join_pieces(pending), frag)) > budget {
        flush_groups(pending)
    } else {
        seq![]
    }
}

/// Pieces buffered after `frag` arrives while `pending` is buffered.
pub open spec fn step_pending(pending: Seq<Seq<char>>, frag: Seq<char>, budget: nat) -> Seq<
    Seq<char>,
> {
    if byte_len(frag) > budget {
        seq![]
    } else if byte_len(append_piece(join_pieces(pending), frag)) > budget {
        seq![frag]
    } else {
        pending.push(frag)
    }
}

/// Pieces buffered after all of `frags` arrived.
pub open spec fn pending_after(frags: Seq<Seq<char>>, budget: nat) -> Seq<Seq<char>>
    decreases frags.len(),
{
    if frags.len() == 0 {
        seq![]
    } else {
        step_pending(pending_after(frags.drop_last(), budget), frags.last(), budget)
    }
}

/// Groups emitted while all of `frags` arrived, before the final flush.
pub open spec fn groups_after(frags: Seq<Seq<char>>, budget: nat) -> Seq<Seq<Seq<char>>>
    decreases frags.len(),
{
    if frags.len() == 0 {
        seq![]
    } else {
        groups_after(frags.drop_last(), budget) + step_groups(
            pending_after(frags.drop_last(), budget),
            frags.last(),
            budget,
        )
    }
}

/// All groups emitted for `frags`, the final flush included.
pub open spec fn packed_groups(frags: Seq<Seq<char>>, budget: nat) -> Seq<Seq<Seq<char>>> {
    groups_after(frags, budget) + flush_groups(pending_after(frags, budget))
}

/// All messages emitted for `frags`.
pub open spec fn packed_messages(frags: Seq<Seq<char>>, budget: nat) -> Seq<Seq<char>> {
    messages_of(packed_groups(frags, budget))
}

/// Every character of every fragment fits in `budget` bytes.
pub open spec fn all_fragments_fit(frags: Seq<Seq<char>>, budget: nat) -> bool {
    forall|i: int| 0 <= i < frags.len() ==> chars_fit(#[trigger] frags[i], budget)
}

proof fn lemma_separator_width()
    ensures
        byte_len(seq!['\n']) == 1,
{
    lemma_encode_single('\n');
}

proof fn lemma_append_piece_len(buf: Seq<char>, piece: Seq<char>)
    ensures
        buf.len() == 0 ==> byte_len(append_piece(buf, piece)) == byte_len(piece),
        buf.len() > 0 ==> byte_len(append_piece(buf, piece)) == byte_len(buf) + 1 + byte_len(
            piece,
        ),
{
    if buf.len() > 0 {
        lemma_encode_concat(buf, seq!['\n']);
        lemma_encode_concat(buf + seq!['\n'], piece);
        lemma_separator_width();
    }
}

proof fn lemma_join_nothing()
    ensures
        join_pieces(Seq::<Seq<char>>::empty()) == Seq::<char>::empty(),
        byte_len(Seq::<char>::empty()) == 0,
{
    assert(join_pieces(Seq::<Seq<char>>::empty()) =~= Seq::<char>::empty());
    assert(encode_utf8(Seq::<char>::empty()) =~= Seq::<u8>::empty());
}

proof fn lemma_join_single(c: Seq<char>)
    ensures
        join_pieces(seq![c]) == c,
{
    assert(seq![c].drop_last() =~= Seq::<Seq<char>>::empty());
    lemma_join_nothing();
    assert(seq![c].last() == c);
}

proof fn lemma_join_push(pending: Seq<Seq<char>>, frag: Seq<char>)
    ensures
        join_pieces(pending.push(frag)) == append_piece(join_pieces(pending), frag),
{
    assert(pending.push(frag).drop_last() =~= pending);
}

proof fn lemma_join_empty_flatten(pieces: Seq<Seq<char>>)
    requires
        join_pieces(pieces).len() == 0,
    ensures
        pieces.flatten() == Seq::<char>::empty(),
    decreases pieces.len(),
{
    if pieces.len() > 0 {
        let init = pieces.drop_last();
        lemma_join_empty_flatten(init);
        assert(pieces =~= init.push(pieces.last()));
        init.lemma_flatten_push(pieces.last());
        assert(pieces.flatten() =~= Seq::<char>::empty());
    }
}

proof fn lemma_flush_flatten(pending: Seq<Seq<char>>)
    ensures
        flush_groups(pending).flatten().flatten() == pending.flatten(),
{
    if join_pieces(pending).len() == 0 {
        lemma_join_empty_flatten(pending);
        assert(flush_groups(pending).flatten() =~= Seq::<Seq<char>>::empty());
    } else {
        seq![pending].lemma_flatten_one_element();
    }
}

proof fn lemma_singletons_flatten(chunks: Seq<Seq<char>>)
    ensures
        singletons(chunks).flatten() == chunks,
    decreases chunks.len(),
{
    if chunks.len() > 0 {
        lemma_singletons_flatten(chunks.drop_first());
        assert(singletons(chunks).drop_first() =~= singletons(chunks.drop_first()));
        assert(singletons(chunks).flatten() =~= seq![chunks[0]] + chunks.drop_first());
    } else {
        assert(singletons(chunks).flatten() =~= chunks);
    }
}

proof fn lemma_singletons_messages(chunks: Seq<Seq<char>>)
    ensures
        messages_of(singletons(chunks)) == chunks,
{
    assert forall|i: int| 0 <= i < chunks.len() implies #[trigger] messages_of(singletons(chunks))[i]
        == chunks[i] by {
        lemma_join_single(chunks[i]);
    }
    assert(messages_of(singletons(chunks)) =~= chunks);
}

proof fn lemma_messages_concat(a: Seq<Seq<Seq<char>>>, b: Seq<Seq<Seq<char>>>)
    ensures
        messages_of(a + b) == messages_of(a) + messages_of(b),
{
    assert(messages_of(a + b) =~= messages_of(a) + messages_of(b));
}

proof fn lemma_flatten2_concat(a: Seq<Seq<Seq<char>>>, b: Seq<Seq<Seq<char>>>)
    ensures
        (a + b).flatten().flatten() == a.flatten().flatten() + b.flatten().flatten(),
{
    lemma_flatten_concat(a, b);
    lemma_flatten_concat(a.flatten(), b.flatten());
}

/// Every message holds text and fits in `budget` bytes.
pub open spec fn messages_within(messages: Seq<Seq<char>>, budget: nat) -> bool {
    forall|i: int|
        0 <= i < messages.len() ==> 0 < #[trigger] byte_len(messages[i]) && byte_len(messages[i])
            <= budget
}

proof fn lemma_nonempty_byte_len(s: Seq<char>)
    requires
        s.len() > 0,
    ensures
        byte_len(s) > 0,
{
    lemma_byte_len_take_monotone(s, 0, s.len() as int);
    assert(s.take(0) =~= Seq::<char>::empty());
    assert(s.take(s.len() as int) =~= s);
}

proof fn lemma_flush_within(pending: Seq<Seq<char>>, budget: nat)
    requires
        byte_len(join_pieces(pending)) <= budget,
    ensures
        messages_within(messages_of(flush_groups(pending)), budget),
{
    if join_pieces(pending).len() > 0 {
        lemma_nonempty_byte_len(join_pieces(pending));
        assert(messages_of(flush_groups(pending))[0] == join_pieces(pending));
    }
}

/// One step keeps every emitted message and the buffer within the budget.
proof fn lemma_step_within(pending: Seq<Seq<char>>, frag: Seq<char>, budget: nat)
    requires
        budget > 0,
        byte_len(join_pieces(pending)) <= budget,
    ensures
        messages_within(messages_of(step_groups(pending, frag, budget)), budget),
        byte_len(join_pieces(step_pending(pending, frag, budget))) <= budget,
{
    let g = step_groups(pending, frag, budget);
    lemma_flush_within(pending, budget);
    if byte_len(frag) > budget {
        let chunks = greedy_chunks(frag, budget);
        lemma_greedy_chunks(frag, budget);
        lemma_singletons_messages(chunks);
        lemma_messages_concat(flush_groups(pending), singletons(chunks));
        assert(join_pieces(Seq::<Seq<char>>::empty()) =~= Seq::<char>::empty());
        assert(byte_len(Seq::<char>::empty()) == 0);
    } else if byte_len(append_piece(join_pieces(pending), frag)) > budget {
        lemma_join_single(frag);
    } else {
        lemma_join_push(pending, frag);
    }
}

/// Every message emitted for any sequence of fragments holds text and fits
/// in the budget.
pub proof fn lemma_packed_messages_within_budget(frags: Seq<Seq<char>>, budget: nat)
    requires
        budget > 0,
    ensures
        messages_within(packed_messages(frags, budget), budget),
{
    lemma_groups_after_within(frags, budget);
    lemma_flush_within(pending_after(frags, budget), budget);
    lemma_messages_concat(groups_after(frags, budget), flush_groups(pending_after(frags, budget)));
    let a = messages_of(groups_after(frags, budget));
    let b = messages_of(flush_groups(pending_after(frags, budget)));
    assert forall|i: int| 0 <= i < (a + b).len() implies 0 < #[trigger] byte_len((a + b)[i])
        && byte_len((a + b)[i]) <= budget by {
        if i >= a.len() {
            assert((a + b)[i] == b[i - a.len()]);
        } else {
            assert((a + b)[i] == a[i]);
        }
    }
}

proof fn lemma_groups_after_within(frags: Seq<Seq<char>>, budget: nat)
    requires
        budget > 0,
    ensures
        messages_within(messages_of(groups_after(frags, budget)), budget),
        byte_len(join_pieces(pending_after(frags, budget))) <= budget,
    decreases frags.len(),
{
    if frags.len() == 0 {
        assert(join_pieces(Seq::<Seq<char>>::empty()) =~= Seq::<char>::empty());
        assert(byte_len(Seq::<char>::empty()) == 0);
        assert(messages_of(groups_after(frags, budget)) =~= Seq::<Seq<char>>::empty());
    } else {
        let init = frags.drop_last();
        lemma_groups_after_within(init, budget);
        let p = pending_after(init, budget);
        lemma_step_within(p, frags.last(), budget);
        let g0 = groups_after(init, budget);
        let g1 = step_groups(p, frags.last(), budget);
        lemma_messages_concat(g0, g1);
        let a = messages_of(g0);
        let b = messages_of(g1);
        assert forall|i: int| 0 <= i < (a + b).len() implies 0 < #[trigger] byte_len((a + b)[i])
            && byte_len((a + b)[i]) <= budget by {
            if i >= a.len() {
                assert((a + b)[i] == b[i - a.len()]);
            } else {
                assert((a + b)[i] == a[i]);
            }
        }
    }
}

proof fn lemma_groups_after_content(frags: Seq<Seq<char>>, budget: nat)
    requires
        budget > 0,
        all_fragments_fit(frags, budget),
    ensures
        groups_after(frags, budget).flatten().flatten() + pending_after(frags, budget).flatten()
            == frags.flatten(),
    decreases frags.len(),
{
    if frags.len() == 0 {
        assert(groups_after(frags, budget).flatten() =~= Seq::<Seq<char>>::empty());
        assert(frags.flatten() =~= Seq::<char>::empty());
        assert(pending_after(frags, budget).flatten() =~= Seq::<char>::empty());
    } else {
        let init = frags.drop_last();
        let f = frags.last();
        assert(all_fragments_fit(init, budget)) by {
            assert forall|i: int| 0 <= i < init.len() implies chars_fit(#[trigger] init[i], budget) by {
                assert(init[i] == frags[i]);
            }
        }
        assert(chars_fit(f, budget)) by {
            assert(f == frags[frags.len() - 1]);
        }
        lemma_groups_after_content(init, budget);
        let p = pending_after(init, budget);
        let g0 = groups_after(init, budget);
        assert(frags =~= init.push(f));
        init.lemma_flatten_push(f);
        lemma_flush_flatten(p);
        lemma_flatten2_concat(g0, step_groups(p, f, budget));
        if byte_len(f) > budget {
            let chunks = greedy_chunks(f, budget);
            lemma_greedy_chunks(f, budget);
            lemma_singletons_flatten(chunks);
            lemma_flatten2_concat(flush_groups(p), singletons(chunks));
            assert(pending_after(frags, budget).flatten() =~= Seq::<char>::empty());
            assert(groups_after(frags, budget).flatten().flatten() + pending_after(
                frags,
                budget,
            ).flatten() =~= frags.flatten());
        } else if byte_len(append_piece(join_pieces(p), f)) > budget {
            seq![f].lemma_flatten_one_element();
            assert(groups_after(frags, budget).flatten().flatten() + pending_after(
                frags,
                budget,
            ).flatten() =~= frags.flatten());
        } else {
            p.lemma_flatten_push(f);
            assert(step_groups(p, f, budget).flatten() =~= Seq::<Seq<char>>::empty());
            assert(groups_after(frags, budget).flatten().flatten() + pending_after(
                frags,
                budget,
            ).flatten() =~= frags.flatten());
        }
    }
}

/// No text is lost, duplicated or reordered: each message joins a group of
/// pieces, and the pieces of all groups, in order, make up the fragments.
pub proof fn lemma_packed_messages_complete(frags: Seq<Seq<char>>, budget: nat)
    requires
        budget > 0,
        all_fragments_fit(frags, budget),
    ensures
        packed_messages(frags, budget).len() == packed_groups(frags, budget).len(),
        forall|i: int|
            0 <= i < packed_groups(frags, budget).len() ==> #[trigger] packed_messages(
                frags,
                budget,
            )[i] == join_pieces(packed_groups(frags, budget)[i]),
        packed_groups(frags, budget).flatten().flatten() == frags.flatten(),
{
    lemma_groups_after_content(frags, budget);
    let p = pending_after(frags, budget);
    lemma_flush_flatten(p);
    lemma_flatten2_concat(groups_after(frags, budget), flush_groups(p));
}

/// Packs fragments into messages of at most `budget` bytes, emitting each
/// message as soon as it is complete.
pub struct ChunkAccumulator {
    budget: usize,
    buffer: String,
    pending: Ghost<Seq<Seq<char>>>,
}

impl ChunkAccumulator {
    /// The byte budget of each message.
    pub closed spec fn budget(&self) -> nat {
        self.budget as nat
    }

    /// The fragments buffered since the last flush.
    pub closed spec fn pending(&self) -> Seq<Seq<char>> {
        self.pending@
    }

    /// The buffer holds the buffered fragments joined, within the budget.
    pub closed spec fn wf(&self) -> bool {
        &&& self.budget > 0
        &&& self.buffer@ == join_pieces(self.pending@)
        &&& byte_len(self.buffer@) <= self.budget
    }

    /// An empty accumulator; fails where `budget` is zero.
    pub fn new(budget: usize) -> (r: Result<ChunkAccumulator, &'static str>)
        ensures
            budget == 0 ==> r == Err::<ChunkAccumulator, &str>(INVALID_BUDGET),
            budget > 0 ==> r is Ok && r->Ok_0.wf() && r->Ok_0.budget() == budget
                && r->Ok_0.pending() == Seq::<Seq<char>>::empty(),
    {
        if budget == 0 {
            return Err(INVALID_BUDGET);
        }
        let acc = ChunkAccumulator {
            budget,
            buffer: String::new(),
            pending: Ghost(Seq::empty()),
        };
        assert(join_pieces(Seq::<Seq<char>>::empty()) =~= Seq::<char>::empty());
        Ok(acc)
    }

    /// Empties the buffer and returns what it held.
    fn take_buffer(&mut self) -> (r: String)
        ensures
            r@ == old(self).buffer@,
            final(self).buffer@ == Seq::<char>::empty(),
            final(self).budget == old(self).budget,
            final(self).pending@ == Seq::<Seq<char>>::empty(),
    {
        let msg = self.buffer.clone();
        self.buffer = String::new();
        self.pending = Ghost(Seq::empty());
        msg
    }

    /// Takes in one fragment and returns the messages it completes, in order.
    /// Fails, leaving the accumulator as it was, where a character of
    /// `fragment` is wider than the budget.
    pub fn push(&mut self, fragment: &str) -> (r: Result<Vec<String>, &'static str>)
        requires
            old(self).wf(),
        ensures
            final(self).wf(),
            final(self).budget() == old(self).budget(),
            !chars_fit(fragment@, old(self).budget()) ==> r == Err::<Vec<String>, &str>(
                BUDGET_TOO_SMALL,
            ) && final(self).pending() == old(self).pending(),
            chars_fit(fragment@, old(self).budget()) ==> r is Ok && string_views(r->Ok_0@)
                == messages_of(step_groups(old(self).pending(), fragment@, old(self).budget()))
                && final(self).pending() == step_pending(
                old(self).pending(),
                fragment@,
                old(self).budget(),
            ),
    {
        let ghost p = self.pending@;
        let ghost b = self.budget as nat;
        let budget = self.budget;
        let flen = fragment.as_bytes().len();
        let mut out: Vec<String> = Vec::new();
        proof {
            lemma_join_nothing();
            lemma_join_single(fragment@);
            lemma_join_push(p, fragment@);
            lemma_append_piece_len(join_pieces(p), fragment@);
        }
        if flen > budget {
            let chunks = match split_safe_utf8(fragment, budget) {
                Ok(chunks) => chunks,
                Err(e) => {
                    return Err(e);
                },
            };
            if !self.buffer.as_str().is_empty() {
                let msg = self.take_buffer();
                out.push(msg);
            } else {
                self.pending = Ghost(Seq::empty());
                assert(self.buffer@ =~= Seq::<char>::empty());
            }
            proof {
                assert(string_views(out@) =~= messages_of(flush_groups(p)));
                assert(join_pieces(Seq::<Seq<char>>::empty()) =~= Seq::<char>::empty());
                lemma_singletons_messages(str_views(chunks@));
                lemma_messages_concat(flush_groups(p), singletons(str_views(chunks@)));
            }
            let mut i: usize = 0;
            while i < chunks.len()
                invariant
                    0 <= i <= chunks@.len(),
                    string_views(out@) == messages_of(flush_groups(p)) + str_views(chunks@).take(
                        i as int,
                    ),
                decreases chunks@.len() - i,
            {
                let piece = chunks[i].to_owned();
                let ghost prev = string_views(out@);
                out.push(piece);
                assert(string_views(out@) =~= prev.push(piece@));
                assert(str_views(chunks@).take(i + 1) =~= str_views(chunks@).take(i as int).push(
                    piece@,
                ));
                assert(string_views(out@) =~= messages_of(flush_groups(p)) + str_views(
                    chunks@,
                ).take(i + 1));
                i += 1;
            }
            assert(str_views(chunks@).take(i as int) =~= str_views(chunks@));
            return Ok(out);
        }
        proof {
            lemma_short_chars_fit(fragment@, b);
        }
        let buffered = self.buffer.as_str().as_bytes().len();
        if !self.buffer.as_str().is_empty() && flen >= budget - buffered {
            let msg = self.take_buffer();
            out.push(msg);
            assert(string_views(out@) =~= messages_of(flush_groups(p)));
        } else {
            assert(string_views(out@) =~= messages_of(Seq::<Seq<Seq<char>>>::empty()));
        }
        let ghost before = self.pending@;
        let ghost buf0 = self.buffer@;
        proof {
            lemma_append_piece_len(buf0, fragment@);
            lemma_join_push(before, fragment@);
            assert(Seq::<Seq<char>>::empty().push(fragment@) =~= seq![fragment@]);
        }
        if !self.buffer.as_str().is_empty() {
            self.buffer.append(SEPARATOR);
        }
        self.buffer.append(fragment);
        self.pending = Ghost(before.push(fragment@));
        proof {
            reveal_strlit("\n");
            assert(SEPARATOR@ == seq!['\n']);
            if buf0.len() == 0 {
                assert(self.buffer@ =~= fragment@);
            } else {
                assert(self.buffer@ =~= buf0 + seq!['\n'] + fragment@);
            }
            assert(self.buffer@ == append_piece(buf0, fragment@));
        }
        Ok(out)
    }

    /// Emits what the buffer holds, if it holds text, and empties it.
    pub fn finish(&mut self) -> (r: Option<String>)
        requires
            old(self).wf(),
        ensures
            final(self).wf(),
            final(self).budget() == old(self).budget(),
            final(self).pending() == Seq::<Seq<char>>::empty(),
            match r {
                Some(m) => messages_of(flush_groups(old(self).pending())) == seq![m@],
                None => flush_groups(old(self).pending()) == Seq::<Seq<Seq<char>>>::empty(),
            },
    {
        proof {
            lemma_join_nothing();
        }
        if self.buffer.as_str().is_empty() {
            self.pending = Ghost(Seq::empty());
            assert(self.buffer@ =~= Seq::<char>::empty());
            None
        } else {
            let ghost p = self.pending@;
            let msg = self.take_buffer();
            assert(messages_of(flush_groups(p)) =~= seq![msg@]);
            Some(msg)
        }
    }
}

/// Packs `fragments`, in order, into messages of at most `budget` bytes.
/// Fails where `budget` is zero or a character is wider than it. An empty
/// result means there is nothing to deliver.
pub fn pack_fragments(fragments: &[String], budget: usize) -> (r: Result<Vec<String>, &'static str>)
    ensures
        budget == 0 ==> r == Err::<Vec<String>, &str>(INVALID_BUDGET),
        budget > 0 && !all_fragments_fit(string_views(fragments@), budget as nat) ==> r == Err::<
            Vec<String>,
            &str,
        >(BUDGET_TOO_SMALL),
        budget > 0 && all_fragments_fit(string_views(fragments@), budget as nat) ==> r is Ok
            && string_views(r->Ok_0@) == packed_messages(string_views(fragments@), budget as nat),
        r is Ok ==> messages_within(string_views(r->Ok_0@), budget as nat),
{
    let mut acc = match ChunkAccumulator::new(budget) {
        Ok(acc) => acc,
        Err(e) => {
            return Err(e);
        },
    };
    let ghost fv = string_views(fragments@);
    let ghost b = budget as nat;
    let mut out: Vec<String> = Vec::new();
    let mut i: usize = 0;
    assert(fv.take(0) =~= Seq::<Seq<char>>::empty());
    while i < fragments.len()
        invariant
            0 <= i <= fragments@.len(),
            fv == string_views(fragments@),
            b == budget as nat,
            acc.wf(),
            acc.budget() == b,
            acc.pending() == pending_after(fv.take(i as int), b),
            string_views(out@) == messages_of(groups_after(fv.take(i as int), b)),
            all_fragments_fit(fv.take(i as int), b),
        decreases fragments@.len() - i,
    {
        let ghost old_out = out@;
        let step = acc.push(fragments[i].as_str());
        let mut msgs = match step {
            Ok(msgs) => msgs,
            Err(e) => {
                assert(!all_fragments_fit(fv, b)) by {
                    assert(!chars_fit(fv[i as int], b));
                }
                return Err(e);
            },
        };
        let ghost fs = fv.take(i + 1);
        assert(fs.drop_last() =~= fv.take(i as int));
        assert(fs.last() == fv[i as int]);
        let ghost emitted = msgs@;
        out.append(&mut msgs);
        proof {
            lemma_messages_concat(
                groups_after(fv.take(i as int), b),
                step_groups(pending_after(fv.take(i as int), b), fv[i as int], b),
            );
            assert(string_views(out@) =~= string_views(old_out) + string_views(emitted));
            assert(all_fragments_fit(fs, b)) by {
                assert forall|k: int| 0 <= k < fs.len() implies chars_fit(#[trigger] fs[k], b) by {
                    if k < i {
                        assert(fs[k] == fv.take(i as int)[k]);
                    }
                }
            }
        }
        i += 1;
    }
    assert(fv.take(i as int) =~= fv);
    let ghost before = out@;
    let last = acc.finish();
    match last {
        Some(m) => {
            out.push(m);
        },
        None => {},
    }
    proof {
        lemma_messages_concat(groups_after(fv, b), flush_groups(pending_after(fv, b)));
        assert(string_views(out@) =~= packed_messages(fv, b));
        lemma_packed_messages_within_budget(fv, b);
    }
    Ok(out)
}

} // verus!
