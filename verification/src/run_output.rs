//! The outcome of a run, in the form in which it is saved for analytics.

use vstd::prelude::*;
use vstd::slice::slice_to_vec;
use vstd::string::StringSliceAdditionalSpecFns;
use crate::decimal::{decimal, push_decimal};
use crate::parser::NEWLINE;

verus! {

/// The byte that separates the segments of a path.
pub const SLASH: u8 = 47;

/// The outcome of a run of the solver on one file.
pub struct RunOutput {
    filename: Vec<u8>,
    algorithm: Vec<u8>,
    dataset: Vec<u8>,
    initial_crossings: u64,
    final_crossings: u64,
    elapsed_nanos: u64,
}

/// The mathematical content of a `RunOutput`; names are held as bytes.
pub ghost struct Outcome {
    pub filename: Seq<u8>,
    pub algorithm: Seq<u8>,
    pub dataset: Seq<u8>,
    pub initial_crossings: u64,
    pub final_crossings: u64,
    pub elapsed_nanos: u64,
}

/// The bytes `analytics/`.
pub open spec fn analytics_prefix() -> Seq<u8> {
    seq![97u8, 110u8, 97u8, 108u8, 121u8, 116u8, 105u8, 99u8, 115u8, 47u8]
}

/// The bytes `.txt`.
pub open spec fn text_suffix() -> Seq<u8> {
    seq![46u8, 116u8, 120u8, 116u8]
}

/// The last segment of a path: what follows its last slash, or all of it if
/// it holds none.
pub open spec fn last_segment(path: Seq<u8>) -> Seq<u8>
    decreases path.len(),
{
    if path.len() == 0 || path.last() == SLASH {
        Seq::empty()
    } else {
        last_segment(path.drop_last()).push(path.last())
    }
}

impl Outcome {
    /// The directory that the outcome is saved in:
    /// `analytics/<algorithm>/<dataset>`.
    pub open spec fn directory(&self) -> Seq<u8> {
        analytics_prefix() + self.algorithm + seq![SLASH] + self.dataset
    }

    /// The name of the file that the outcome is saved in: the last segment
    /// of the name of the file that was solved, and `.txt`.
    pub open spec fn file_name(&self) -> Seq<u8> {
        last_segment(self.filename) + text_suffix()
    }

    /// What is saved: the crossings before the run, the crossings after it
    /// and the nanoseconds it took, each on a line.
    pub open spec fn contents(&self) -> Seq<u8> {
        decimal(self.initial_crossings as nat) + seq![NEWLINE] + decimal(self.final_crossings as nat)
            + seq![NEWLINE] + decimal(self.elapsed_nanos as nat) + seq![NEWLINE]
    }
}

impl View for RunOutput {
    type V = Outcome;

    closed spec fn view(&self) -> Outcome {
        Outcome {
            filename: self.filename@,
            algorithm: self.algorithm@,
            dataset: self.dataset@,
            initial_crossings: self.initial_crossings,
            final_crossings: self.final_crossings,
            elapsed_nanos: self.elapsed_nanos,
        }
    }
}

/// A path from `from` on holds no slash: it is the last segment of the path
/// if a slash stands before it or it starts the path.
pub proof fn lemma_last_segment(path: Seq<u8>, from: int)
    requires
        0 <= from <= path.len(),
        forall|k: int| from <= k < path.len() ==> #[trigger] path[k] != SLASH,
        from == 0 || path[from - 1] == SLASH,
    ensures
        last_segment(path) == path.subrange(from, path.len() as int),
    decreases path.len(),
{
    if path.len() == from {
        assert(path.subrange(from, path.len() as int) =~= Seq::<u8>::empty());
    } else {
        let shorter = path.drop_last();
        lemma_last_segment(shorter, from);
        assert(shorter.subrange(from, shorter.len() as int).push(path.last()) =~= path.subrange(
            from,
            path.len() as int,
        ));
    }
}

/// Appends the bytes of `tail`.
fn push_bytes(out: &mut Vec<u8>, tail: &Vec<u8>, from: usize)
    requires
        from <= tail.len(),
    ensures
        final(out)@ == old(out)@ + tail@.subrange(from as int, tail.len() as int),
{
    let mut k: usize = from;
    assert(tail@.subrange(from as int, from as int) =~= Seq::<u8>::empty());
    assert(out@ =~= old(out)@ + tail@.subrange(from as int, k as int));
    while k < tail.len()
        invariant
            from <= k <= tail.len(),
            out@ == old(out)@ + tail@.subrange(from as int, k as int),
        decreases tail.len() - k,
    {
        out.push(tail[k]);
        assert(tail@.subrange(from as int, k + 1) =~= tail@.subrange(from as int, k as int).push(tail@[k as int]));
        assert(out@ =~= old(out)@ + tail@.subrange(from as int, k + 1));
        k += 1;
    }
}

impl RunOutput {
    /// The outcome of a run of `algorithm` on the file `filename` of the
    /// dataset `dataset`.
    pub fn new(
        filename: &str,
        algorithm: &str,
        dataset: &str,
        initial_crossings: u64,
        final_crossings: u64,
        elapsed_nanos: u64,
    ) -> (output: RunOutput)
        ensures
            output@ == (Outcome {
                filename: filename.spec_bytes(),
                algorithm: algorithm.spec_bytes(),
                dataset: dataset.spec_bytes(),
                initial_crossings,
                final_crossings,
                elapsed_nanos,
            }),
    {
        RunOutput {
            filename: slice_to_vec(filename.as_bytes()),
            algorithm: slice_to_vec(algorithm.as_bytes()),
            dataset: slice_to_vec(dataset.as_bytes()),
            initial_crossings,
            final_crossings,
            elapsed_nanos,
        }
    }

    /// The directory that the outcome is saved in.
    pub fn directory(&self) -> (path: Vec<u8>)
        ensures
            path@ == self@.directory(),
    {
        let mut path: Vec<u8> = Vec::new();
        path.push(97);
        path.push(110);
        path.push(97);
        path.push(108);
        path.push(121);
        path.push(116);
        path.push(105);
        path.push(99);
        path.push(115);
        path.push(47);
        assert(path@ =~= analytics_prefix());
        push_bytes(&mut path, &self.algorithm, 0);
        path.push(SLASH);
        push_bytes(&mut path, &self.dataset, 0);
        assert(self.algorithm@.subrange(0, self.algorithm@.len() as int) =~= self.algorithm@);
        assert(self.dataset@.subrange(0, self.dataset@.len() as int) =~= self.dataset@);
        assert(path@ =~= self@.directory());
        path
    }

    /// The name of the file that the outcome is saved in.
    pub fn file_name(&self) -> (name: Vec<u8>)
        ensures
            name@ == self@.file_name(),
    {
        let mut from: usize = self.filename.len();
        while from > 0 && self.filename[from - 1] != SLASH
            invariant
                from <= self.filename.len(),
                forall|k: int| from <= k < self.filename.len() ==> #[trigger] self.filename@[k] != SLASH,
            decreases from,
        {
            from -= 1;
        }
        proof {
            lemma_last_segment(self.filename@, from as int);
        }
        let mut name: Vec<u8> = Vec::new();
        push_bytes(&mut name, &self.filename, from);
        name.push(46);
        name.push(116);
        name.push(120);
        name.push(116);
        assert(name@ =~= self@.file_name());
        name
    }

    /// What is saved: the crossings before the run, the crossings after it
    /// and the nanoseconds it took, each on a line.
    pub fn contents(&self) -> (text: Vec<u8>)
        ensures
            text@ == self@.contents(),
    {
        let mut text: Vec<u8> = Vec::new();
        push_decimal(&mut text, self.initial_crossings);
        text.push(NEWLINE);
        push_decimal(&mut text, self.final_crossings);
        text.push(NEWLINE);
        push_decimal(&mut text, self.elapsed_nanos);
        text.push(NEWLINE);
        assert(text@ =~= self@.contents());
        text
    }
}

} // verus!
