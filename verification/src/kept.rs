//! Evaluations that a search keeps, found again by their positions.
use std::collections::HashMap;
use vstd::prelude::*;
use vstd::string::*;
use crate::replay_buffer::copy_singles;
use crate::single::Single;
use crate::text::{characters, same_text};
use crate::wave::PredictedView;

verus! {

/// An evaluation that is kept, with the FEN of its position.
#[derive(Debug)]
pub struct Evaluation {
    pub fen: String,
    pub priors: Vec<Single>,
    pub value: Single,
}

/// The evaluations that are kept, one for each position.
///
/// A position has a key, and the key says where its evaluation was put last. Two positions may
/// share a key, so the FEN decides. One that is not found under its key is looked for among
/// those whose FENs have the same digest.
#[derive(Debug)]
pub struct Kept {
    pub evaluations: Vec<Evaluation>,
    pub places: HashMap<u64, usize>,
    /// The evaluations by the digests of their FENs.
    pub rows: HashMap<u64, Vec<usize>>,
}

/// A number for a text.
pub open spec fn digest_of(text: Seq<char>) -> u64
    decreases text.len(),
{
    if text.len() == 0 {
        0
    } else {
        digest_of(text.drop_last()).wrapping_mul(1_099_511_628_211).wrapping_add(
            text.last() as u64,
        )
    }
}

fn digest(text: &str) -> (number: u64)
    ensures
        number == digest_of(text@),
{
    let chars: Vec<char> = characters(text);
    let mut number: u64 = 0;
    let mut i: usize = 0;
    assert(text@.take(0) =~= Seq::<char>::empty());
    while i < chars.len()
        invariant
            chars@ == text@,
            i <= chars@.len(),
            number == digest_of(text@.take(i as int)),
        decreases chars@.len() - i,
    {
        proof {
            assert(text@.take(i + 1).drop_last() =~= text@.take(i as int));
            assert(text@.take(i + 1).last() == chars@[i as int]);
        }
        number = number.wrapping_mul(1_099_511_628_211).wrapping_add(chars[i] as u64);
        i = i + 1;
    }
    assert(text@.take(i as int) =~= text@);
    number
}

/// Whether evaluation `i` stands in the row of its digest.
pub open spec fn in_row(
    rows: Map<u64, Vec<usize>>,
    evaluations: Seq<Evaluation>,
    i: int,
) -> bool {
    let number = digest_of(evaluations[i].fen@);
    rows.contains_key(number) && rows[number]@.contains(i as usize)
}

/// Whether evaluation `i` is that of a FEN.
pub open spec fn is_at(evaluations: Seq<Evaluation>, fen: Seq<char>, i: int) -> bool {
    0 <= i < evaluations.len() && evaluations[i].fen@ == fen
}

/// What an evaluation says.
pub open spec fn says(evaluation: Evaluation) -> PredictedView {
    PredictedView { priors: evaluation.priors@, value: evaluation.value }
}

/// The evaluations by their FENs.
pub open spec fn by_fen(evaluations: Seq<Evaluation>) -> Map<Seq<char>, PredictedView> {
    Map::new(
        |fen: Seq<char>| exists|i: int| #[trigger] is_at(evaluations, fen, i),
        |fen: Seq<char>| says(evaluations[choose|i: int| #[trigger] is_at(evaluations, fen, i)]),
    )
}

impl View for Kept {
    type V = Map<Seq<char>, PredictedView>;

    open spec fn view(&self) -> Map<Seq<char>, PredictedView> {
        by_fen(self.evaluations@)
    }
}

/// What is known of an evaluation under its FEN, where every FEN has one.
proof fn lemma_at(evaluations: Seq<Evaluation>, fen: Seq<char>, i: int)
    requires
        is_at(evaluations, fen, i),
        forall|j: int, k: int|
            0 <= j < k < evaluations.len() ==> (#[trigger] evaluations[j]).fen@ != (
            #[trigger] evaluations[k]).fen@,
    ensures
        by_fen(evaluations).contains_key(fen),
        by_fen(evaluations)[fen] == says(evaluations[i]),
{
    let j = choose|j: int| #[trigger] is_at(evaluations, fen, j);
    assert(is_at(evaluations, fen, j));
    if i != j {
        assert(evaluations[i].fen@ != evaluations[j].fen@);
    }
}

impl Kept {
    /// Whether every position has one evaluation, every key a place, and every evaluation stands
    /// in the row of its digest.
    pub open spec fn wf(&self) -> bool {
        &&& forall|j: int, k: int|
            0 <= j < k < self.evaluations@.len() ==> (#[trigger] self.evaluations@[j]).fen@ != (
            #[trigger] self.evaluations@[k]).fen@
        &&& forall|key: u64|
            self.places@.contains_key(key) ==> #[trigger] self.places@[key]
                < self.evaluations@.len()
        &&& forall|i: int|
            0 <= i < self.evaluations@.len() ==> #[trigger] in_row(
                self.rows@,
                self.evaluations@,
                i,
            )
        &&& forall|number: u64, j: int|
            #![trigger self.rows@[number]@[j]]
            self.rows@.contains_key(number) && 0 <= j < self.rows@[number]@.len()
                ==> self.rows@[number]@[j] < self.evaluations@.len()
    }

    /// Nothing is kept.
    pub fn new() -> (kept: Kept)
        ensures
            kept.wf(),
            kept@ == Map::<Seq<char>, PredictedView>::empty(),
    {
        broadcast use vstd::std_specs::hash::group_hash_axioms;

        let kept = Kept {
            evaluations: Vec::new(),
            places: HashMap::new(),
            rows: HashMap::new(),
        };
        assert(kept@ =~= Map::<Seq<char>, PredictedView>::empty());
        kept
    }

    /// The number of the evaluation of a FEN: looked for under its key first, and then in the
    /// row of its digest.
    pub fn find(&self, key: u64, fen: &str) -> (found: Option<usize>)
        requires
            self.wf(),
        ensures
            found is Some <==> self@.contains_key(fen@),
            found matches Some(i) ==> is_at(self.evaluations@, fen@, i as int) && self@[fen@]
                == says(self.evaluations@[i as int]),
    {
        broadcast use vstd::std_specs::hash::group_hash_axioms;

        match self.places.get(&key) {
            Some(place) => {
                let i: usize = *place;
                assert(self.places@[key] < self.evaluations@.len());
                if same_text(self.evaluations[i].fen.as_str(), fen) {
                    proof {
                        lemma_at(self.evaluations@, fen@, i as int);
                    }
                    return Some(i);
                }
            },
            None => {},
        }
        let number: u64 = digest(fen);
        match self.rows.get(&number) {
            Some(row) => {
                let mut j: usize = 0;
                while j < row.len()
                    invariant
                        self.wf(),
                        self.rows@.contains_key(number),
                        *row == self.rows@[number],
                        j <= row@.len(),
                        forall|k: int|
                            0 <= k < j ==> !is_at(
                                self.evaluations@,
                                fen@,
                                #[trigger] row@[k] as int,
                            ),
                    decreases row@.len() - j,
                {
                    let i: usize = row[j];
                    assert(self.rows@[number]@[j as int] < self.evaluations@.len());
                    if same_text(self.evaluations[i].fen.as_str(), fen) {
                        proof {
                            lemma_at(self.evaluations@, fen@, i as int);
                        }
                        return Some(i);
                    }
                    j = j + 1;
                }
            },
            None => {},
        }
        proof {
            assert forall|i: int| !#[trigger] is_at(self.evaluations@, fen@, i) by {
                if is_at(self.evaluations@, fen@, i) {
                    assert(in_row(self.rows@, self.evaluations@, i));
                    assert(i < self.evaluations.len());
                    let row = self.rows@[number]@;
                    let k = choose|k: int| 0 <= k < row.len() && row[k] == i as usize;
                    assert(is_at(self.evaluations@, fen@, row[k] as int));
                }
            }
        }
        None
    }

    /// Keeps an evaluation, in place of an earlier one of the same position.
    pub fn keep(&mut self, key: u64, fen: &str, priors: &Vec<Single>, value: Single)
        requires
            old(self).wf(),
        ensures
            final(self).wf(),
            final(self)@ == old(self)@.insert(
                fen@,
                PredictedView { priors: priors@, value },
            ),
    {
        broadcast use vstd::std_specs::hash::group_hash_axioms;

        let ghost before = self.evaluations@;
        let evaluation = Evaluation { fen: fen.to_owned(), priors: copy_singles(priors), value };
        let ghost at: int = 0;
        match self.find(key, fen) {
            Some(i) => {
                proof {
                    at = i as int;
                }
                self.evaluations.set(i, evaluation);
                let _ = self.places.insert(key, i);
                proof {
                    assert forall|j: int| 0 <= j < self.evaluations@.len() implies
                        #[trigger] in_row(self.rows@, self.evaluations@, j) by {
                        assert(in_row(self.rows@, before, j));
                    }
                }
            },
            None => {
                let i: usize = self.evaluations.len();
                proof {
                    at = i as int;
                    assert forall|j: int| 0 <= j < before.len() implies (
                    #[trigger] before[j]).fen@ != fen@ by {
                        if before[j].fen@ == fen@ {
                            assert(is_at(before, fen@, j));
                        }
                    }
                }
                self.evaluations.push(evaluation);
                let _ = self.places.insert(key, i);
                let number: u64 = digest(fen);
                let mut row: Vec<usize> = match self.rows.remove(&number) {
                    Some(row) => row,
                    None => Vec::new(),
                };
                let ghost shorter = row@;
                row.push(i);
                let ghost longer = row@;
                let _ = self.rows.insert(number, row);
                proof {
                    assert(longer[shorter.len() as int] == i);
                    assert forall|j: int| 0 <= j < self.evaluations@.len() implies
                        #[trigger] in_row(self.rows@, self.evaluations@, j) by {
                        if j < before.len() {
                            assert(in_row(old(self).rows@, before, j));
                            let own = digest_of(before[j].fen@);
                            let k = choose|k: int|
                                0 <= k < old(self).rows@[own]@.len() && old(self).rows@[own]@[k]
                                    == j as usize;
                            if own == number {
                                assert(longer[k] == j as usize);
                            }
                        }
                    }
                }
            },
        }
        proof {
            let after = self.evaluations@;
            assert(self.wf());
            lemma_at(after, fen@, at);
            let wanted = old(self)@.insert(fen@, PredictedView { priors: priors@, value });
            assert forall|f: Seq<char>| #[trigger] by_fen(after).dom().contains(f)
                == wanted.dom().contains(f) && (wanted.dom().contains(f) ==> by_fen(after)[f]
                == wanted[f]) by {
                if f != fen@ && by_fen(before).contains_key(f) {
                    let j = choose|j: int| #[trigger] is_at(before, f, j);
                    assert(j != at);
                    assert(is_at(after, f, j));
                    lemma_at(before, f, j);
                    lemma_at(after, f, j);
                }
                if f != fen@ && by_fen(after).contains_key(f) {
                    let j = choose|j: int| #[trigger] is_at(after, f, j);
                    assert(is_at(before, f, j));
                }
            }
            assert(self@ =~= wanted);
        }
    }
}

} // verus!
