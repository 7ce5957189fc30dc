//! One step of the interactive shell over a skip list of byte strings: the typed
//! line is split at single spaces into words; `set k v` binds `k` to `v`, `get k`
//! looks `k` up, and `\q` ends the session.
use crate::ordered::{lookup, upsert};
use crate::skiplist::SkipList;
use crate::traits::{copy_bytes, KeyOrder, TypeSkipListKey};
use vstd::prelude::*;

verus! {

/// The words of `s` from index `i` on, where the current word starts at `start`
/// and `acc` holds the words already ended.
pub open spec fn words_from(s: Seq<u8>, i: int, start: int, acc: Seq<Seq<u8>>) -> Seq<Seq<u8>>
    decreases s.len() - i,
{
    if i >= s.len() || i < 0 {
        acc.push(s.subrange(start, s.len() as int))
    } else if s[i] == 32 {
        words_from(s, i + 1, i + 1, acc.push(s.subrange(start, i)))
    } else {
        words_from(s, i + 1, start, acc)
    }
}

/// The words of `s`: the pieces between single spaces (so two spaces in a row
/// give an empty word). There is always at least one.
pub open spec fn words(s: Seq<u8>) -> Seq<Seq<u8>> {
    words_from(s, 0, 0, seq![])
}

/// Words joined back together with one space between each two.
pub open spec fn join_words(ws: Seq<Seq<u8>>) -> Seq<u8>
    decreases ws.len(),
{
    if ws.len() == 0 {
        seq![]
    } else if ws.len() == 1 {
        ws[0]
    } else {
        join_words(ws.drop_last()) + seq![32u8] + ws.last()
    }
}

/// No word holds a space.
pub open spec fn spaceless(ws: Seq<Seq<u8>>) -> bool {
    forall|k: int, m: int| 0 <= k < ws.len() && 0 <= m < ws[k].len() ==> #[trigger] ws[k][m] != 32u8
}

/// The words `acc` joined and then `rest`, with a space between when there are
/// words.
spec fn join_then(acc: Seq<Seq<u8>>, rest: Seq<u8>) -> Seq<u8> {
    if acc.len() == 0 {
        rest
    } else {
        join_words(acc) + seq![32u8] + rest
    }
}

proof fn lemma_join_push(acc: Seq<Seq<u8>>, w: Seq<u8>)
    ensures
        join_words(acc.push(w)) == join_then(acc, w),
{
    if acc.len() > 0 {
        assert(acc.push(w).drop_last() =~= acc);
    }
}

proof fn lemma_words_from_join(s: Seq<u8>, i: int, start: int, acc: Seq<Seq<u8>>)
    requires
        0 <= start <= i <= s.len(),
        forall|k: int| start <= k < i ==> #[trigger] s[k] != 32u8,
        spaceless(acc),
    ensures
        join_words(words_from(s, i, start, acc)) == join_then(acc, s.subrange(start, s.len() as int)),
        spaceless(words_from(s, i, start, acc)),
    decreases s.len() - i,
{
    if i >= s.len() {
        let w = s.subrange(start, s.len() as int);
        lemma_join_push(acc, w);
        let r = acc.push(w);
        assert forall|k: int, m: int| 0 <= k < r.len() && 0 <= m < r[k].len() implies #[trigger] r[k][m] != 32u8 by {
            if k < acc.len() {
                assert(r[k] == acc[k]);
            } else {
                assert(r[k][m] == s[start + m]);
            }
        }
    } else if s[i] == 32 {
        let w = s.subrange(start, i);
        let acc2 = acc.push(w);
        assert forall|k: int, m: int| 0 <= k < acc2.len() && 0 <= m < acc2[k].len() implies #[trigger] acc2[k][m] != 32u8 by {
            if k < acc.len() {
                assert(acc2[k] == acc[k]);
            } else {
                assert(acc2[k][m] == s[start + m]);
            }
        }
        lemma_words_from_join(s, i + 1, i + 1, acc2);
        lemma_join_push(acc, w);
        let tail = s.subrange(i + 1, s.len() as int);
        assert(s.subrange(start, s.len() as int) =~= w + seq![32u8] + tail);
        if acc.len() == 0 {
            assert(join_then(acc2, tail) =~= join_then(acc, s.subrange(start, s.len() as int)));
        } else {
            assert(join_then(acc2, tail) =~= join_then(acc, s.subrange(start, s.len() as int)));
        }
    } else {
        lemma_words_from_join(s, i + 1, start, acc);
    }
}

/// The shell splits a line at each space and nowhere else: joining its words with
/// single spaces gives the line back, and no word holds a space.
pub proof fn lemma_words_split_at_spaces(line: Seq<u8>)
    ensures
        join_words(words(line)) == line,
        spaceless(words(line)),
{
    lemma_words_from_join(line, 0, 0, seq![]);
    assert(line.subrange(0, line.len() as int) =~= line);
}

/// `set`
pub open spec fn set_word() -> Seq<u8> {
    seq![115u8, 101, 116]
}

/// `get`
pub open spec fn get_word() -> Seq<u8> {
    seq![103u8, 101, 116]
}

/// `\q`
pub open spec fn quit_word() -> Seq<u8> {
    seq![92u8, 113]
}

/// What the shell does after a line.
pub enum CliAction {
    /// The pair was stored.
    Stored,
    /// The looked-up key holds this value.
    Found(Vec<u8>),
    /// The looked-up key is not there.
    NotFound,
    /// The session ends.
    Quit,
    /// The first word is no command.
    Unknown,
    /// A `set` or `get` came without all its words.
    MissingWord,
}

/// The outcome of one line: the action, and whether the line had more than three
/// words (which the shell reports before acting on it).
pub struct CliStep {
    pub too_many_words: bool,
    pub action: CliAction,
}

/// Splitting ends with one more word than were already ended, at least.
proof fn lemma_words_len(s: Seq<u8>, i: int, start: int, acc: Seq<Seq<u8>>)
    ensures
        words_from(s, i, start, acc).len() >= acc.len() + 1,
    decreases s.len() - i,
{
    if 0 <= i < s.len() {
        if s[i] == 32 {
            lemma_words_len(s, i + 1, i + 1, acc.push(s.subrange(start, i)));
        } else {
            lemma_words_len(s, i + 1, start, acc);
        }
    }
}

/// Splits `line` into its words.
fn split_words(line: &[u8]) -> (r: Vec<Vec<u8>>)
    ensures
        r@.map_values(|w: Vec<u8>| w@) == words(line@),
        r@.len() >= 1,
{
    let mut out: Vec<Vec<u8>> = Vec::new();
    let mut start: usize = 0;
    let mut i: usize = 0;
    let ghost s = line@;
    proof {
        lemma_words_len(s, 0, 0, seq![]);
    }
    assert(out@.map_values(|w: Vec<u8>| w@) =~= Seq::<Seq<u8>>::empty());
    while i < line.len()
        invariant
            s == line@,
            start <= i <= s.len(),
            words_from(s, i as int, start as int, out@.map_values(|w: Vec<u8>| w@)) == words(s),
        decreases s.len() - i,
    {
        if line[i] == 32u8 {
            let w = copy_bytes(vstd::slice::slice_subrange(line, start, i));
            let ghost acc = out@.map_values(|w: Vec<u8>| w@);
            out.push(w);
            assert(out@.map_values(|w: Vec<u8>| w@) =~= acc.push(s.subrange(start as int, i as int)));
            start = i + 1;
        } else {
        }
        i = i + 1;
    }
    let ghost acc = out@.map_values(|w: Vec<u8>| w@);
    let w = copy_bytes(vstd::slice::slice_subrange(line, start, line.len()));
    out.push(w);
    assert(out@.map_values(|w: Vec<u8>| w@) =~= acc.push(s.subrange(start as int, s.len() as int)));
    out
}

/// Whether `a` holds the same bytes as `b`.
fn same_bytes(a: &Vec<u8>, b: &Vec<u8>) -> (r: bool)
    ensures
        r == (a@ == b@),
{
    a.compare_key(b) == KeyOrder::Equal
}

/// Carries out one line of the shell on `list`.
pub fn cli_step(list: &mut SkipList<Vec<u8>, Vec<u8>>, line: &[u8]) -> (r: CliStep)
    requires
        old(list).wf(),
        old(list).level_cap() >= 1,
        old(list)@.len() + 2 < usize::MAX,
    ensures
        final(list).wf(),
        final(list).level_cap() == old(list).level_cap(),
        final(list).head_node().data == old(list).head_node().data,
        r.too_many_words == (words(line@).len() > 3),
        ({
            let w = words(line@);
            if w[0] == set_word() {
                if w.len() >= 3 {
                    &&& r.action is Stored
                    &&& final(list)@ == upsert::<Vec<u8>, Seq<u8>>(old(list)@, w[1], w[2])
                } else {
                    &&& r.action is MissingWord
                    &&& final(list)@ == old(list)@
                }
            } else {
                &&& final(list)@ == old(list)@
                &&& if w[0] == get_word() {
                    if w.len() >= 2 {
                        match lookup(old(list)@, w[1]) {
                            Some(v) => r.action matches CliAction::Found(x) && x@ == v,
                            None => r.action is NotFound,
                        }
                    } else {
                        r.action is MissingWord
                    }
                } else if w[0] == quit_word() {
                    r.action is Quit
                } else {
                    r.action is Unknown
                }
            }
        }),
{
    let ws = split_words(line);
    let ghost w = words(line@);
    assert(ws@[0]@ == w[0]);
    let too_many_words = ws.len() > 3;
    let set_w: Vec<u8> = vec![115u8, 101, 116];
    let get_w: Vec<u8> = vec![103u8, 101, 116];
    let quit_w: Vec<u8> = vec![92u8, 113];
    assert(set_w@ =~= set_word());
    assert(get_w@ =~= get_word());
    assert(quit_w@ =~= quit_word());
    let action = if same_bytes(&ws[0], &set_w) {
        if ws.len() >= 3 {
            assert(ws@[1]@ == w[1] && ws@[2]@ == w[2]);
            list.insert(copy_bytes(&ws[1]), copy_bytes(&ws[2]));
            CliAction::Stored
        } else {
            CliAction::MissingWord
        }
    } else if same_bytes(&ws[0], &get_w) {
        if ws.len() >= 2 {
            assert(ws@[1]@ == w[1]);
            match list.search(copy_bytes(&ws[1])) {
                Some(v) => CliAction::Found(v),
                None => CliAction::NotFound,
            }
        } else {
            CliAction::MissingWord
        }
    } else if same_bytes(&ws[0], &quit_w) {
        CliAction::Quit
    } else {
        CliAction::Unknown
    };
    CliStep { too_many_words, action }
}

} // verus!
