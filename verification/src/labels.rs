//! Label vocabulary and one-hot target encoding.
//!
//! The class vocabulary is the set of distinct label strings in strict
//! lexicographic order (by Unicode scalar value, character by character; a
//! proper prefix sorts first).  The index of a label in the vocabulary is its
//! class id.  No label is special-cased: the vocabulary is exactly the
//! distinct labels, sorted.
//!
//! `encode_labels` turns a label column into a one-hot target matrix over a
//! vocabulary: a label found in the vocabulary selects its first occurrence;
//! a label outside it yields an all-zero row, a legitimate value meaning "no
//! class selected".

use vstd::prelude::*;

verus! {

use crate::eval::is_one_hot;
use vstd::pervasive::VecAdditionalExecFns;
use vstd::string::StrSliceExecFns;

/// Strict lexicographic order on character sequences: the first differing
/// character decides; a proper prefix comes first.
pub open spec fn lex_lt(a: Seq<char>, b: Seq<char>) -> bool
    decreases a.len(),
{
    if b.len() == 0 {
        false
    } else if a.len() == 0 {
        true
    } else if a[0] != b[0] {
        a[0] < b[0]
    } else {
        lex_lt(a.drop_first(), b.drop_first())
    }
}

/// `lex_lt` is transitive.
pub proof fn lemma_lex_lt_trans(a: Seq<char>, b: Seq<char>, c: Seq<char>)
    requires
        lex_lt(a, b),
        lex_lt(b, c),
    ensures
        lex_lt(a, c),
    decreases a.len(),
{
    if a.len() == 0 {
    } else {
        if a[0] == b[0] && b[0] == c[0] {
            lemma_lex_lt_trans(a.drop_first(), b.drop_first(), c.drop_first());
        }
    }
}

/// `lex_lt` is irreflexive: an ordered pair is never equal.
pub proof fn lemma_lex_lt_irreflexive(a: Seq<char>, b: Seq<char>)
    requires
        lex_lt(a, b),
    ensures
        a != b,
    decreases a.len(),
{
    if a.len() != 0 && b.len() != 0 && a[0] == b[0] {
        lemma_lex_lt_irreflexive(a.drop_first(), b.drop_first());
        assert(a =~= seq![a[0]] + a.drop_first());
        assert(b =~= seq![b[0]] + b.drop_first());
    }
}

/// A difference at position `i`, after an equal prefix, orders the sequences.
proof fn lemma_lex_lt_at(a: Seq<char>, b: Seq<char>, i: int)
    requires
        0 <= i < a.len(),
        i < b.len(),
        forall|k: int| 0 <= k < i ==> a[k] == b[k],
        a[i] < b[i],
    ensures
        lex_lt(a, b),
    decreases i,
{
    if i > 0 {
        assert forall|k: int| 0 <= k < i - 1 implies #[trigger] a.drop_first()[k]
            == b.drop_first()[k] by {
            assert(a[k + 1] == b[k + 1]);
        }
        assert(a.drop_first()[i - 1] == a[i]);
        assert(b.drop_first()[i - 1] == b[i]);
        lemma_lex_lt_at(a.drop_first(), b.drop_first(), i - 1);
    }
}

/// A proper prefix orders before the longer sequence.
proof fn lemma_lex_lt_prefix(a: Seq<char>, b: Seq<char>)
    requires
        a.len() < b.len(),
        forall|k: int| 0 <= k < a.len() ==> a[k] == b[k],
    ensures
        lex_lt(a, b),
    decreases a.len(),
{
    if a.len() != 0 {
        assert forall|k: int| 0 <= k < a.len() - 1 implies #[trigger] a.drop_first()[k]
            == b.drop_first()[k] by {
            assert(a[k + 1] == b[k + 1]);
        }
        lemma_lex_lt_prefix(a.drop_first(), b.drop_first());
    }
}

/// Outcome of a three-way label comparison.
pub enum LabelOrder {
    Less,
    Equal,
    Greater,
}

/// Three-way lexicographic comparison of two labels, character by character.
pub fn compare_labels(a: &str, b: &str) -> (r: LabelOrder)
    ensures
        match r {
            LabelOrder::Less => lex_lt(a@, b@),
            LabelOrder::Equal => a@ == b@,
            LabelOrder::Greater => lex_lt(b@, a@),
        },
{
    let a_len = a.unicode_len();
    let b_len = b.unicode_len();
    let shorter: usize = if a_len < b_len {
        a_len
    } else {
        b_len
    };
    let mut i: usize = 0;
    while i < shorter
        invariant
            a_len == a@.len(),
            b_len == b@.len(),
            shorter <= a_len,
            shorter <= b_len,
            0 <= i <= shorter,
            forall|k: int| 0 <= k < i ==> a@[k] == b@[k],
        decreases shorter - i,
    {
        let ca = a.get_char(i);
        let cb = b.get_char(i);
        if ca < cb {
            proof {
                lemma_lex_lt_at(a@, b@, i as int);
            }
            return LabelOrder::Less;
        }
        if cb < ca {
            proof {
                lemma_lex_lt_at(b@, a@, i as int);
            }
            return LabelOrder::Greater;
        }
        i = i + 1;
    }
    if a_len < b_len {
        proof {
            lemma_lex_lt_prefix(a@, b@);
        }
        LabelOrder::Less
    } else if b_len < a_len {
        proof {
            assert forall|k: int| 0 <= k < b@.len() implies #[trigger] b@[k] == a@[k] by {
                assert(a@[k] == b@[k]);
            }
            lemma_lex_lt_prefix(b@, a@);
        }
        LabelOrder::Greater
    } else {
        proof {
            assert(a@ =~= b@);
        }
        LabelOrder::Equal
    }
}

/// `lex_lt` never relates a sequence to itself.
pub proof fn lemma_lex_lt_not_self(a: Seq<char>)
    ensures
        !lex_lt(a, a),
{
    if lex_lt(a, a) {
        lemma_lex_lt_irreflexive(a, a);
    }
}

/// `lex_lt` is asymmetric.
pub proof fn lemma_lex_lt_asymmetric(a: Seq<char>, b: Seq<char>)
    requires
        lex_lt(a, b),
    ensures
        !lex_lt(b, a),
{
    if lex_lt(b, a) {
        lemma_lex_lt_trans(a, b, a);
        lemma_lex_lt_not_self(a);
    }
}

/// A label sequence in strictly increasing lexicographic order; strictness
/// makes the entries pairwise distinct.
pub open spec fn strictly_sorted(s: Seq<String>) -> bool {
    forall|i: int, j: int| #![trigger s[i], s[j]] 0 <= i < j < s.len() ==> lex_lt(s[i]@, s[j]@)
}

/// Whether some entry of `vocab` is the label `l`.
pub open spec fn has_label(vocab: Seq<String>, l: Seq<char>) -> bool {
    exists|i: int| 0 <= i < vocab.len() && (#[trigger] vocab[i])@ == l
}

/// The first position of `vocab` whose entry does not order before `label`
/// (`vocab.len()` when every entry does).
fn lower_bound(vocab: &Vec<String>, label: &String) -> (pos: usize)
    ensures
        pos <= vocab@.len(),
        forall|k: int| 0 <= k < pos ==> lex_lt((#[trigger] vocab@[k])@, label@),
        pos < vocab@.len() ==> !lex_lt(vocab@[pos as int]@, label@),
{
    let n = vocab.len();
    let mut i: usize = 0;
    while i < n
        invariant
            n == vocab@.len(),
            0 <= i <= n,
            forall|k: int| 0 <= k < i ==> lex_lt((#[trigger] vocab@[k])@, label@),
        decreases n - i,
    {
        match compare_labels(vocab[i].as_str(), label.as_str()) {
            LabelOrder::Less => {
                i = i + 1;
            },
            LabelOrder::Equal => {
                proof {
                    lemma_lex_lt_not_self(label@);
                }
                return i;
            },
            LabelOrder::Greater => {
                proof {
                    lemma_lex_lt_asymmetric(label@, vocab@[i as int]@);
                }
                return i;
            },
        }
    }
    i
}

/// Inserts `label` into a strictly sorted vocabulary, keeping it strictly
/// sorted; a label already present is not duplicated.  The entries afterward
/// are exactly the old entries together with `label`.
pub fn insert_label(vocab: &mut Vec<String>, label: String)
    requires
        strictly_sorted(old(vocab)@),
    ensures
        strictly_sorted(final(vocab)@),
        forall|l: Seq<char>| #[trigger]
            has_label(final(vocab)@, l) <==> (has_label(old(vocab)@, l) || l == label@),
{
    let n = vocab.len();
    let pos = lower_bound(vocab, &label);
    if pos < n {
        let same = match compare_labels(vocab[pos].as_str(), label.as_str()) {
            LabelOrder::Less => {
                // lower_bound stopped here, so this entry cannot order
                // before the label.
                proof {
                    assert(false);
                }
                false
            },
            LabelOrder::Equal => true,
            LabelOrder::Greater => false,
        };
        if same {
            proof {
                assert(vocab@[pos as int]@ == label@);
                assert(has_label(vocab@, label@));
                assert(forall|l: Seq<char>| #[trigger]
                    has_label(vocab@, l) <==> (has_label(vocab@, l) || l == label@));
            }
            return ;
        }
    }
    proof {
        if pos < n {
            assert(lex_lt(label@, vocab@[pos as int]@));
        }
    }
    vocab.insert(pos, label);
    proof {
        let oldv = old(vocab)@;
        let newv = vocab@;
        oldv.insert_ensures(pos as int, label);
        assert(newv == oldv.insert(pos as int, label));
        assert forall|i: int, j: int| #![trigger newv[i], newv[j]]
            0 <= i < j < newv.len() implies lex_lt(newv[i]@, newv[j]@) by {
            if j < pos {
                assert(newv[i] == oldv[i]);
                assert(newv[j] == oldv[j]);
            } else if j == pos {
                assert(newv[i] == oldv[i]);
                assert(lex_lt(oldv[i]@, label@));
            } else {
                assert(newv[j] == oldv[j - 1]);
                if i < pos {
                    assert(newv[i] == oldv[i]);
                    if i < j - 1 {
                        assert(lex_lt(oldv[i]@, oldv[j - 1]@));
                    }
                } else if i == pos {
                    assert(newv[i]@ == label@);
                    assert(lex_lt(label@, oldv[pos as int]@));
                    if pos < j - 1 {
                        assert(lex_lt(oldv[pos as int]@, oldv[j - 1]@));
                        lemma_lex_lt_trans(label@, oldv[pos as int]@, oldv[j - 1]@);
                    }
                } else {
                    assert(newv[i] == oldv[i - 1]);
                    assert(lex_lt(oldv[i - 1]@, oldv[j - 1]@));
                }
            }
        }
        assert forall|l: Seq<char>| #[trigger]
            has_label(newv, l) <==> (has_label(oldv, l) || l == label@) by {
            if has_label(newv, l) {
                let k = choose|k: int| 0 <= k < newv.len() && (#[trigger] newv[k])@ == l;
                if k < pos {
                    assert(oldv[k] == newv[k]);
                    assert(has_label(oldv, l));
                } else if k == pos {
                    assert(newv[k]@ == label@);
                } else {
                    assert(oldv[k - 1] == newv[k]);
                    assert(has_label(oldv, l));
                }
            }
            if has_label(oldv, l) {
                let k = choose|k: int| 0 <= k < oldv.len() && (#[trigger] oldv[k])@ == l;
                if k < pos {
                    assert(newv[k] == oldv[k]);
                } else {
                    assert(newv[k + 1] == oldv[k]);
                }
                assert(has_label(newv, l));
            }
            if l == label@ {
                assert(newv[pos as int]@ == label@);
                assert(has_label(newv, l));
            }
        }
    }
}

/// The class vocabulary of a label column: the distinct labels, in strict
/// lexicographic order.  Every input label is in the vocabulary, every
/// vocabulary entry occurs among the inputs, and strictness of the order
/// makes the entries pairwise distinct.
pub fn build_vocabulary(labels: &Vec<String>) -> (vocab: Vec<String>)
    ensures
        strictly_sorted(vocab@),
        forall|i: int| 0 <= i < labels@.len() ==> has_label(vocab@, (#[trigger] labels@[i])@),
        forall|i: int| 0 <= i < vocab@.len() ==> has_label(labels@, (#[trigger] vocab@[i])@),
{
    let mut vocab: Vec<String> = Vec::new();
    let n = labels.len();
    let mut i: usize = 0;
    while i < n
        invariant
            n == labels@.len(),
            0 <= i <= n,
            strictly_sorted(vocab@),
            forall|k: int| 0 <= k < i ==> has_label(vocab@, (#[trigger] labels@[k])@),
            forall|k: int| 0 <= k < vocab@.len() ==> has_label(labels@, (#[trigger] vocab@[k])@),
        decreases n - i,
    {
        insert_label(&mut vocab, labels[i].clone());
        proof {
            assert forall|k: int| 0 <= k < vocab@.len() implies has_label(
                labels@,
                (#[trigger] vocab@[k])@,
            ) by {
                assert(has_label(vocab@, vocab@[k]@));
                if vocab@[k]@ == labels@[i as int]@ {
                    assert(has_label(labels@, vocab@[k]@));
                }
            }
        }
        i = i + 1;
    }
    vocab
}

/// `c` is the first position of `vocab` that holds the label `l`.
pub open spec fn first_occurrence(vocab: Seq<String>, l: Seq<char>, c: int) -> bool {
    &&& 0 <= c < vocab.len()
    &&& vocab[c]@ == l
    &&& forall|j: int| 0 <= j < c ==> (#[trigger] vocab[j])@ != l
}

/// The class id of `label`: the first position of `vocab` holding it, or
/// `None` when the label is not in the vocabulary.
pub fn label_index(vocab: &Vec<String>, label: &String) -> (r: Option<usize>)
    ensures
        match r {
            Some(i) => first_occurrence(vocab@, label@, i as int),
            None => !has_label(vocab@, label@),
        },
{
    let n = vocab.len();
    let mut i: usize = 0;
    while i < n
        invariant
            n == vocab@.len(),
            0 <= i <= n,
            forall|j: int| 0 <= j < i ==> (#[trigger] vocab@[j])@ != label@,
        decreases n - i,
    {
        if vocab[i].eq(label) {
            return Some(i);
        }
        i = i + 1;
    }
    None
}

/// A row of `width` class scores: 1 at the selected class, 0 elsewhere; all
/// zeros when no class is selected.
pub fn one_hot_row(width: usize, hot: Option<usize>) -> (row: Vec<i64>)
    requires
        match hot {
            Some(k) => k < width,
            None => true,
        },
    ensures
        row@.len() == width,
        match hot {
            Some(k) => is_one_hot(row@, k as int),
            None => forall|j: int| 0 <= j < width ==> row@[j] == 0,
        },
{
    let mut row: Vec<i64> = Vec::new();
    let mut j: usize = 0;
    while j < width
        invariant
            0 <= j <= width,
            row@.len() == j,
            forall|k: int| 0 <= k < j ==> row@[k] == 0,
        decreases width - j,
    {
        row.push(0);
        j = j + 1;
    }
    match hot {
        Some(k) => {
            row.set(k, 1);
        },
        None => {},
    }
    row
}

/// The one-hot target matrix of a label column over a class vocabulary: one
/// row per label, one column per class; entry `(i, c)` is 1 exactly when `c`
/// is the first occurrence of label `i` in the vocabulary, so a label outside
/// the vocabulary yields an all-zero row.
pub fn encode_labels(labels: &Vec<String>, class_names: &Vec<String>) -> (encoded: Vec<Vec<i64>>)
    ensures
        encoded@.len() == labels@.len(),
        forall|i: int| 0 <= i < encoded@.len() ==> (#[trigger] encoded@[i])@.len()
            == class_names@.len(),
        forall|i: int, c: int|
            #![trigger encoded@[i]@[c]]
            0 <= i < labels@.len() && 0 <= c < class_names@.len() ==> encoded@[i]@[c] == (
            if first_occurrence(class_names@, labels@[i]@, c) {
                1int
            } else {
                0int
            }),
{
    let n = labels.len();
    let mut encoded: Vec<Vec<i64>> = Vec::new();
    let mut i: usize = 0;
    while i < n
        invariant
            n == labels@.len(),
            0 <= i <= n,
            encoded@.len() == i,
            forall|k: int| 0 <= k < i ==> (#[trigger] encoded@[k])@.len() == class_names@.len(),
            forall|k: int, c: int|
                #![trigger encoded@[k]@[c]]
                0 <= k < i && 0 <= c < class_names@.len() ==> encoded@[k]@[c] == (
                if first_occurrence(class_names@, labels@[k]@, c) {
                    1int
                } else {
                    0int
                }),
        decreases n - i,
    {
        let hot = label_index(class_names, &labels[i]);
        let row = one_hot_row(class_names.len(), hot);
        proof {
            assert forall|c: int| 0 <= c < class_names@.len() implies row@[c] == (
            if first_occurrence(class_names@, labels@[i as int]@, c) {
                1int
            } else {
                0int
            }) by {
                match hot {
                    Some(k) => {
                        if c != k as int && first_occurrence(
                            class_names@,
                            labels@[i as int]@,
                            c,
                        ) {
                            assert(class_names@[c]@ == labels@[i as int]@);
                            if c < k as int {
                                assert((#[trigger] class_names@[c])@ != labels@[i as int]@);
                            } else {
                                assert(class_names@[k as int]@ != labels@[i as int]@);
                            }
                        }
                    },
                    None => {
                        if first_occurrence(class_names@, labels@[i as int]@, c) {
                            assert(has_label(class_names@, labels@[i as int]@));
                        }
                    },
                }
            }
        }
        encoded.push(row);
        i = i + 1;
    }
    encoded
}

} // verus!
