//! Statistics on the segmentation of a corpus: how many words are unknown
//! in full or in their suffix, and the mean and the median number of pieces
//! of the others.

use crate::piece::{PieceResult, PieceView};
use crate::segment::segment;
use crate::shape::{classify, shape_of, Shape};
use crate::vocabulary::Vocabulary;
use vstd::prelude::*;
use vstd::relations::{sorted_by, total_ordering};
use vstd::seq_lib::{
    lemma_sorted_unique, to_multiset_build, to_multiset_contains, to_multiset_insert,
    to_multiset_len, to_multiset_remove,
};

verus! {

/// What has been counted over a run of words.
pub ghost struct Tally {
    /// The number of pieces of each fully known word, in the order of the words.
    pub counts: Seq<nat>,
    /// The number of fully unknown words.
    pub unknowns: nat,
    /// The number of words with an unknown suffix.
    pub suffix_unknowns: nat,
    /// The number of words.
    pub tokens: nat,
}

impl Tally {
    /// The tally before any word.
    pub open spec fn empty() -> Tally {
        Tally { counts: Seq::empty(), unknowns: 0, suffix_unknowns: 0, tokens: 0 }
    }

    /// The tally after one more word with the given segmentation.
    pub open spec fn record(self, pieces: Seq<PieceView>) -> Tally {
        match shape_of(pieces) {
            Shape::Empty => Tally { tokens: self.tokens + 1, ..self },
            Shape::FullyUnknown => Tally {
                unknowns: self.unknowns + 1,
                tokens: self.tokens + 1,
                ..self
            },
            Shape::SuffixUnknown => Tally {
                suffix_unknowns: self.suffix_unknowns + 1,
                tokens: self.tokens + 1,
                ..self
            },
            Shape::FullyKnown => Tally {
                counts: self.counts.push(pieces.len()),
                tokens: self.tokens + 1,
                ..self
            },
        }
    }

    /// The tally after a run of further words.
    pub open spec fn record_all(self, words: Seq<Seq<PieceView>>) -> Tally
        decreases words.len(),
    {
        if words.len() == 0 {
            self
        } else {
            self.record_all(words.drop_last()).record(words.last())
        }
    }

    /// The words of a run that have the given shape, in their order.
    pub open spec fn of_shape(words: Seq<Seq<PieceView>>, shape: Shape) -> Seq<Seq<PieceView>> {
        words.filter(|pieces: Seq<PieceView>| shape_of(pieces) == shape)
    }

    /// After a run of words, every word has been counted once and in the
    /// class of its shape only, and the fully known words have their
    /// numbers of pieces recorded in the order of the run.
    pub proof fn lemma_record_all(self, words: Seq<Seq<PieceView>>)
        ensures
            self.record_all(words).tokens == self.tokens + words.len(),
            self.record_all(words).unknowns == self.unknowns + Self::of_shape(
                words,
                Shape::FullyUnknown,
            ).len(),
            self.record_all(words).suffix_unknowns == self.suffix_unknowns + Self::of_shape(
                words,
                Shape::SuffixUnknown,
            ).len(),
            self.record_all(words).counts == self.counts + Self::of_shape(
                words,
                Shape::FullyKnown,
            ).map_values(|pieces: Seq<PieceView>| pieces.len()),
            self.consistent() ==> self.record_all(words).consistent(),
        decreases words.len(),
    {
        reveal(Seq::filter);
        let length = |pieces: Seq<PieceView>| pieces.len();
        if words.len() == 0 {
            assert(self.counts + Self::of_shape(words, Shape::FullyKnown).map_values(length)
                =~= self.counts);
        } else {
            let earlier = words.drop_last();
            self.lemma_record_all(earlier);
            let known = Self::of_shape(earlier, Shape::FullyKnown);
            if shape_of(words.last()) == Shape::FullyKnown {
                assert(Self::of_shape(words, Shape::FullyKnown) == known.push(words.last()));
                assert(known.push(words.last()).map_values(length) =~= known.map_values(
                    length,
                ).push(words.last().len()));
                assert(self.record_all(words).counts =~= self.counts + Self::of_shape(
                    words,
                    Shape::FullyKnown,
                ).map_values(length));
            } else {
                assert(Self::of_shape(words, Shape::FullyKnown) == known);
            }
        }
    }

    /// No class of words is counted more often than words were counted.
    pub open spec fn consistent(self) -> bool {
        self.unknowns + self.suffix_unknowns + self.counts.len() <= self.tokens
    }
}

/// The sum of a sequence of numbers.
pub open spec fn total(counts: Seq<nat>) -> nat
    decreases counts.len(),
{
    if counts.len() == 0 {
        0
    } else {
        total(counts.drop_last()) + counts.last()
    }
}

/// The numbers of a sequence in ascending order.
pub open spec fn in_ascending_order(counts: Seq<nat>) -> Seq<nat> {
    counts.sort_by(|a: nat, b: nat| a <= b)
}

/// The median of a sequence of numbers that is not empty: the middle one of
/// the numbers in ascending order, the lower of the two in the middle where
/// their number is even.
pub open spec fn median(counts: Seq<nat>) -> nat {
    in_ascending_order(counts)[(counts.len() - 1) / 2]
}

/// The exact quotient of two counts.
#[derive(Clone, Copy, Debug, PartialEq, Eq, Structural)]
pub struct Ratio {
    pub numerator: u128,
    pub denominator: u128,
}

/// Why a statistic has no value.
#[derive(Clone, Copy, Debug, PartialEq, Eq, Structural)]
pub enum StatsError {
    /// No word was counted that the statistic is taken over.
    NoData,
}

impl StatsError {
    /// What the error says, in words.
    pub open spec fn description(self) -> Seq<char> {
        "no data"@
    }

    /// The error as a message for a reader.
    pub fn message(&self) -> (text: String)
        ensures
            text@ == self.description(),
    {
        String::from_str("no data")
    }
}

/// Whether no number of the sequence is followed by a smaller one.
pub open spec fn ascending(values: Seq<usize>) -> bool {
    forall|i: int, j: int| 0 <= i < j < values.len() ==> values[i] <= values[j]
}

/// `slice::sort` of the standard library, on a vector of numbers: the
/// vector afterwards holds the numbers it held before, each as often, and
/// none of them is followed by a smaller one.
#[verifier::external_body]
fn sort_ascending(values: &mut Vec<usize>)
    ensures
        final(values)@.to_multiset() == old(values)@.to_multiset(),
        ascending(final(values)@),
{
    values.sort();
}

/// Two sequences that hold the same items, each as often, still do so
/// after the same function is applied to every item.
proof fn lemma_map_keeps_multiset<A, B>(a: Seq<A>, b: Seq<A>, f: spec_fn(A) -> B)
    requires
        a.to_multiset() == b.to_multiset(),
    ensures
        a.map_values(f).to_multiset() == b.map_values(f).to_multiset(),
    decreases a.len(),
{
    to_multiset_len(a);
    to_multiset_len(b);
    if a.len() == 0 {
        assert(a.map_values(f) =~= b.map_values(f));
    } else {
        let item = a.last();
        let shorter = a.drop_last();
        to_multiset_contains(a, item);
        to_multiset_contains(b, item);
        assert(a.contains(item));
        let j = choose|j: int| 0 <= j < b.len() && b[j] == item;
        let rest = b.remove(j);
        assert(shorter =~= a.remove(a.len() - 1));
        to_multiset_remove(a, a.len() - 1);
        to_multiset_remove(b, j);
        lemma_map_keeps_multiset(shorter, rest, f);
        assert(a.map_values(f) =~= shorter.map_values(f).push(f(item)));
        to_multiset_build(shorter.map_values(f), f(item));
        assert(b.map_values(f) =~= rest.map_values(f).insert(j, f(item)));
        to_multiset_insert(rest.map_values(f), j, f(item));
    }
}

/// The numbers of a sequence can be put in ascending order in one way only:
/// a sequence in ascending order that holds the same numbers, each as
/// often, is the sequence in ascending order, and gives its median.
pub proof fn lemma_ascending_order_is_unique(counts: Seq<nat>, arranged: Seq<nat>)
    requires
        arranged.to_multiset() == counts.to_multiset(),
        forall|i: int, j: int| 0 <= i < j < arranged.len() ==> arranged[i] <= arranged[j],
    ensures
        arranged == in_ascending_order(counts),
        counts.len() > 0 ==> median(counts) == arranged[(counts.len() - 1) / 2],
{
    let leq = |a: nat, b: nat| a <= b;
    assert(total_ordering(leq)) by {
        assert(vstd::relations::reflexive(leq));
        assert(vstd::relations::antisymmetric(leq));
        assert(vstd::relations::transitive(leq));
        assert(vstd::relations::strongly_connected(leq));
    }
    counts.lemma_sort_by_ensures(leq);
    assert(sorted_by(arranged, leq));
    lemma_sorted_unique(arranged, in_ascending_order(counts), leq);
}

/// A vector of numbers that is in ascending order and holds the numbers of
/// `counts`, each as often, is `counts` in ascending order.
proof fn lemma_sorted_is_ascending_order(sorted: Seq<usize>, counts: Seq<usize>)
    requires
        ascending(sorted),
        sorted.to_multiset() == counts.to_multiset(),
    ensures
        sorted.map_values(|count: usize| count as nat) == in_ascending_order(
            counts.map_values(|count: usize| count as nat),
        ),
{
    let widen = |count: usize| count as nat;
    let arranged = sorted.map_values(widen);
    lemma_map_keeps_multiset(sorted, counts, widen);
    assert forall|i: int, j: int| 0 <= i < j < arranged.len() implies arranged[i]
        <= arranged[j] by {
        assert(sorted[i] <= sorted[j]);
    }
    lemma_ascending_order_is_unique(counts.map_values(widen), arranged);
}

/// The counters of the statistics over a corpus.
pub struct PieceStats {
    counts: Vec<usize>,
    unknowns: usize,
    suffix_unknowns: usize,
    empties: usize,
}

impl View for PieceStats {
    type V = Tally;

    closed spec fn view(&self) -> Tally {
        Tally {
            counts: self.counts@.map_values(|count: usize| count as nat),
            unknowns: self.unknowns as nat,
            suffix_unknowns: self.suffix_unknowns as nat,
            tokens: (self.unknowns + self.suffix_unknowns + self.counts@.len()
                + self.empties) as nat,
        }
    }
}

impl PieceStats {
    /// Counters that have seen no word.
    pub fn new() -> (stats: PieceStats)
        ensures
            stats@ == Tally::empty(),
    {
        let stats = PieceStats { counts: Vec::new(), unknowns: 0, suffix_unknowns: 0, empties: 0 };
        assert(stats@.counts =~= Seq::<nat>::empty());
        stats
    }

    /// Counts one word with the given segmentation.
    pub fn record(&mut self, pieces: &Vec<PieceResult>)
        requires
            old(self)@.tokens < usize::MAX,
        ensures
            final(self)@ == old(self)@.record(pieces.deep_view()),
    {
        match classify(pieces) {
            Shape::Empty => {
                self.empties = self.empties + 1;
            },
            Shape::FullyUnknown => {
                self.unknowns = self.unknowns + 1;
            },
            Shape::SuffixUnknown => {
                self.suffix_unknowns = self.suffix_unknowns + 1;
            },
            Shape::FullyKnown => {
                self.counts.push(pieces.len());
                assert(self@.counts =~= old(self)@.counts.push(pieces.deep_view().len()));
            },
        }
    }

    /// The number of words counted.
    pub fn tokens(&self) -> (n: u128)
        ensures
            n == self@.tokens,
    {
        self.unknowns as u128 + self.suffix_unknowns as u128 + self.counts.len() as u128
            + self.empties as u128
    }

    /// The number of fully unknown words counted.
    pub fn unknowns(&self) -> (n: usize)
        ensures
            n == self@.unknowns,
    {
        self.unknowns
    }

    /// The number of words with an unknown suffix counted.
    pub fn suffix_unknowns(&self) -> (n: usize)
        ensures
            n == self@.suffix_unknowns,
    {
        self.suffix_unknowns
    }

    /// The share of fully unknown words among the words counted.
    pub fn unknown_rate(&self) -> (rate: Result<Ratio, StatsError>)
        ensures
            match rate {
                Ok(ratio) => self@.tokens > 0 && ratio.numerator == self@.unknowns
                    && ratio.denominator == self@.tokens,
                Err(_) => self@.tokens == 0,
            },
    {
        let tokens = self.tokens();
        if tokens == 0 {
            Err(StatsError::NoData)
        } else {
            Ok(Ratio { numerator: self.unknowns as u128, denominator: tokens })
        }
    }

    /// The share of words with an unknown suffix among the words counted.
    pub fn suffix_unknown_rate(&self) -> (rate: Result<Ratio, StatsError>)
        ensures
            match rate {
                Ok(ratio) => self@.tokens > 0 && ratio.numerator == self@.suffix_unknowns
                    && ratio.denominator == self@.tokens,
                Err(_) => self@.tokens == 0,
            },
    {
        let tokens = self.tokens();
        if tokens == 0 {
            Err(StatsError::NoData)
        } else {
            Ok(Ratio { numerator: self.suffix_unknowns as u128, denominator: tokens })
        }
    }

    /// The mean number of pieces of the fully known words.
    pub fn average_length(&self) -> (mean: Result<Ratio, StatsError>)
        ensures
            match mean {
                Ok(ratio) => self@.counts.len() > 0 && ratio.numerator == total(self@.counts)
                    && ratio.denominator == self@.counts.len(),
                Err(_) => self@.counts.len() == 0,
            },
    {
        let n = self.counts.len();
        if n == 0 {
            return Err(StatsError::NoData);
        }
        let ghost counts = self@.counts;
        let mut sum: u128 = 0;
        let mut i: usize = 0;
        while i < n
            invariant
                i <= n == self.counts.len(),
                counts == self@.counts,
                sum == total(counts.take(i as int)),
                sum <= i * usize::MAX,
            decreases n - i,
        {
            assert(counts.take(i + 1).drop_last() =~= counts.take(i as int));
            assert(counts.take(i + 1).last() == self.counts[i as int]);
            assert((i + 1) * usize::MAX == i * usize::MAX + usize::MAX) by (nonlinear_arith);
            assert((i + 1) * usize::MAX <= usize::MAX * usize::MAX) by (nonlinear_arith)
                requires
                    i + 1 <= usize::MAX,
            ;
            assert(usize::MAX * usize::MAX <= u128::MAX) by (nonlinear_arith)
                requires
                    usize::MAX <= 0xffff_ffff_ffff_ffff,
            ;
            sum = sum + self.counts[i] as u128;
            i += 1;
        }
        assert(counts.take(n as int) =~= counts);
        Ok(Ratio { numerator: sum, denominator: n as u128 })
    }

    /// The median number of pieces of the fully known words.
    pub fn median_length(&self) -> (middle: Result<usize, StatsError>)
        ensures
            match middle {
                Ok(length) => self@.counts.len() > 0 && length == median(self@.counts),
                Err(_) => self@.counts.len() == 0,
            },
    {
        let n = self.counts.len();
        if n == 0 {
            return Err(StatsError::NoData);
        }
        let mut sorted: Vec<usize> = Vec::new();
        let mut i: usize = 0;
        while i < n
            invariant
                i <= n == self.counts.len(),
                sorted@ == self.counts@.take(i as int),
            decreases n - i,
        {
            sorted.push(self.counts[i]);
            assert(sorted@ =~= self.counts@.take(i + 1));
            i += 1;
        }
        assert(sorted@ =~= self.counts@);
        sort_ascending(&mut sorted);
        proof {
            lemma_sorted_is_ascending_order(sorted@, self.counts@);
            to_multiset_len(sorted@);
            to_multiset_len(self.counts@);
            let widened = sorted@.map_values(|count: usize| count as nat);
            assert(widened[(n - 1) / 2] == sorted@[(n - 1) / 2]);
        }
        Ok(sorted[(n - 1) / 2])
    }

    /// Every counter agrees with the number of words counted.
    pub proof fn lemma_consistent(&self)
        ensures
            self@.consistent(),
    {
    }
}

/// The segmentations of the word forms of a sentence, in their order.
pub open spec fn segmentations(vocabulary: Set<Seq<char>>, forms: Seq<Seq<char>>) -> Seq<
    Seq<PieceView>,
> {
    forms.map_values(|form: Seq<char>| segment(vocabulary, form))
}

/// The subcommand that reports statistics on the segmentation of a corpus.
pub struct StatsApp {
    wordpieces: String,
    corpus: String,
}

impl StatsApp {
    /// The subcommand for a vocabulary file and a corpus file.
    pub fn parse(wordpieces: &str, corpus: &str) -> (app: StatsApp)
        ensures
            app.wordpieces_path() == wordpieces@,
            app.corpus_path() == corpus@,
    {
        StatsApp { wordpieces: String::from_str(wordpieces), corpus: String::from_str(corpus) }
    }

    /// The path of the vocabulary file, as a text.
    pub closed spec fn wordpieces_path(&self) -> Seq<char> {
        self.wordpieces@
    }

    /// The path of the corpus file, as a text.
    pub closed spec fn corpus_path(&self) -> Seq<char> {
        self.corpus@
    }

    /// The path of the vocabulary file.
    pub fn wordpieces(&self) -> (path: &str)
        ensures
            path@ == self.wordpieces_path(),
    {
        self.wordpieces.as_str()
    }

    /// The path of the corpus file.
    pub fn corpus(&self) -> (path: &str)
        ensures
            path@ == self.corpus_path(),
    {
        self.corpus.as_str()
    }

    /// Segments the word forms of one sentence and counts each of them.
    pub fn record_sentence(
        &self,
        stats: &mut PieceStats,
        vocabulary: &Vocabulary,
        forms: &Vec<String>,
    )
        requires
            old(stats)@.tokens + forms.len() <= usize::MAX,
        ensures
            final(stats)@ == old(stats)@.record_all(
                segmentations(vocabulary@, forms.deep_view()),
            ),
    {
        let ghost words = segmentations(vocabulary@, forms.deep_view());
        let mut i: usize = 0;
        while i < forms.len()
            invariant
                i <= forms.len(),
                words == segmentations(vocabulary@, forms.deep_view()),
                stats@ == old(stats)@.record_all(words.take(i as int)),
                stats@.tokens == old(stats)@.tokens + i,
                old(stats)@.tokens + forms.len() <= usize::MAX,
            decreases forms.len() - i,
        {
            let pieces = vocabulary.split(forms[i].as_str());
            proof {
                assert(words.take(i + 1).drop_last() =~= words.take(i as int));
                assert(forms.deep_view()[i as int] == forms[i as int]@);
                assert(words.take(i + 1).last() == pieces.deep_view());
            }
            stats.record(&pieces);
            i += 1;
        }
        assert(words.take(i as int) =~= words);
    }
}

} // verus!
