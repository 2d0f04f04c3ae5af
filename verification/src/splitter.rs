//! The splitter itself: the scan state and the pull-based operations that
//! produce one labeled run per call.

use vstd::prelude::*;

use crate::model::first_match;
use crate::model::lemma_skipped_bytes_no_match;
use crate::model::lemma_subrange_concat;
use crate::model::match_at;
use crate::model::next_scan_pos;
use crate::model::run_content;
use crate::model::scan_classes;
use crate::model::split_runs;

verus! {

/// The outcome of a run-producing call.
pub type SplitResult<T> = Result<T, SplitError>;

/// How a run ended.
///
/// `Prefix` labels the run before the first separator occurrence (possibly
/// empty), `FullMatch` a run strictly between two occurrences, and `Suffix`
/// the run after the last occurrence — or the whole input when the
/// separator never occurs, in which case the single run is a `Suffix` and
/// no `Prefix` is ever produced.
#[derive(Debug, PartialEq, Eq, Structural)]
pub enum SplitType {
    Prefix,
    FullMatch,
    Suffix,
}

/// Why a call failed.
///
/// The input lives in memory, so reads cannot fail, and the scan is proved
/// to resolve every window to a match or a mismatch; the one remaining
/// error is asking for a run after the stream was exhausted, which is a
/// caller bug reported rather than silently ignored.
#[derive(Debug, PartialEq, Eq, Structural)]
pub enum SplitError {
    InvalidState,
}

/// A pull-based splitter over an in-memory byte stream.
///
/// It owns the input bytes and a scan position; each call of
/// [`ByteStreamSplitter::next_to_buf`] writes the next run into a
/// caller-supplied sink and reports how the run ended.
pub struct ByteStreamSplitter {
    input: Vec<u8>,
    pos: usize,
    separator: Vec<u8>,
    started_splitting: bool,
    end_of_stream_reached: bool,
    /// When set, every run after the first is yielded by
    /// [`ByteStreamSplitter::next`] with the separator bytes re-prepended,
    /// so that separator-delimited display chunks can be reconstructed.
    /// It never applies to the first run.
    pub next_prepends_seperator: bool,
}

impl ByteStreamSplitter {
    /// The input bytes the splitter scans.
    pub closed spec fn data(self) -> Seq<u8> {
        self.input@
    }

    /// The separator the splitter matches.
    pub closed spec fn sep(self) -> Seq<u8> {
        self.separator@
    }

    /// How far the scan has come: everything before this position has been
    /// emitted as run content or consumed as a separator occurrence.
    pub closed spec fn position(self) -> int {
        self.pos as int
    }

    /// Whether a run has already been produced by a full-match call, which
    /// distinguishes the first run (`Prefix`) from later ones (`FullMatch`).
    pub closed spec fn started(self) -> bool {
        self.started_splitting
    }

    /// Whether the scan has reached its terminal state: the `Suffix` run
    /// has been produced and no further run can be requested.
    pub closed spec fn ended(self) -> bool {
        self.end_of_stream_reached
    }

    /// The prepend mode flag, as contracts see it.
    pub closed spec fn prepends(self) -> bool {
        self.next_prepends_seperator
    }

    /// The splitter's invariant: the separator is non-empty, the scan
    /// position lies inside the input, and a terminal splitter has consumed
    /// its whole input.
    pub open spec fn wf(self) -> bool {
        &&& self.sep().len() >= 1
        &&& 0 <= self.position() <= self.data().len()
        &&& self.ended() ==> self.position() == self.data().len()
    }

    /// Binds a splitter to its input and separator.  Reads nothing eagerly;
    /// an empty separator is a contract violation and is excluded by the
    /// precondition.
    pub fn new(input: Vec<u8>, separator: Vec<u8>) -> (s: ByteStreamSplitter)
        requires
            separator@.len() >= 1,
        ensures
            s.wf(),
            s.data() == input@,
            s.sep() == separator@,
            s.position() == 0,
            !s.started(),
            !s.ended(),
            !s.prepends(),
    {
        ByteStreamSplitter {
            input,
            pos: 0,
            separator,
            started_splitting: false,
            end_of_stream_reached: false,
            next_prepends_seperator: false,
        }
    }

    /// Whether a full separator occurrence starts at `start`.
    fn separator_matches_at(&self, start: usize) -> (b: bool)
        requires
            self.wf(),
            start <= self.data().len(),
        ensures
            b == match_at(self.data(), self.sep(), start as int),
    {
        let n: usize = self.input.len();
        if n - start < self.separator.len() {
            return false;
        }
        let mut j: usize = 0;
        while j < self.separator.len()
            invariant
                self.wf(),
                n == self.data().len(),
                0 <= j <= self.sep().len(),
                start + self.sep().len() <= n,
                forall|k: int| 0 <= k < j ==> self.data()[start + k] == self.sep()[k],
            decreases self.sep().len() - j,
        {
            assert(start + j < self.input@.len());
            if self.input[start + j] != self.separator[j] {
                assert(self.data().subrange(
                    start as int,
                    start + self.sep().len() as int,
                )[j as int] != self.sep()[j as int]);
                return false;
            }
            j = j + 1;
        }
        assert(self.data().subrange(start as int, start + self.sep().len() as int)
            =~= self.sep());
        true
    }

    /// Copies input bytes to `output` until the first byte equal to the
    /// separator's first byte is found and consumed (returned as `Some`),
    /// or the input is exhausted (`None`).  Bytes copied this way cannot
    /// open a separator occurrence, because its first byte did not occur.
    pub fn read_until_first_separator_byte_or_eof(
        &mut self,
        output: &mut Vec<u8>,
    ) -> (r: Option<u8>)
        requires
            old(self).wf(),
        ensures
            final(self).wf(),
            final(self).data() == old(self).data(),
            final(self).sep() == old(self).sep(),
            final(self).started() == old(self).started(),
            final(self).ended() == old(self).ended(),
            final(self).prepends() == old(self).prepends(),
            old(self).position() <= final(self).position(),
            match r {
                Some(b) => {
                    &&& b == old(self).sep()[0]
                    &&& old(self).position() < final(self).position() <= old(self).data().len()
                    &&& old(self).data()[final(self).position() - 1] == b
                    &&& forall|j: int|
                        old(self).position() <= j < final(self).position() - 1
                            ==> old(self).data()[j] != old(self).sep()[0]
                    &&& final(output)@ == old(output)@ + old(self).data().subrange(
                        old(self).position(),
                        final(self).position() - 1,
                    )
                },
                None => {
                    &&& final(self).position() == old(self).data().len()
                    &&& forall|j: int|
                        old(self).position() <= j < old(self).data().len()
                            ==> old(self).data()[j] != old(self).sep()[0]
                    &&& final(output)@ == old(output)@ + old(self).data().subrange(
                        old(self).position(),
                        old(self).data().len() as int,
                    )
                },
            },
    {
        loop
            invariant
                self.wf(),
                self.data() == old(self).data(),
                self.sep() == old(self).sep(),
                self.started() == old(self).started(),
                self.ended() == old(self).ended(),
                self.prepends() == old(self).prepends(),
                old(self).position() <= self.position(),
                forall|j: int|
                    old(self).position() <= j < self.position()
                        ==> self.data()[j] != self.sep()[0],
                output@ == old(output)@ + self.data().subrange(
                    old(self).position(),
                    self.position(),
                ),
            decreases self.data().len() - self.position(),
        {
            if self.pos >= self.input.len() {
                return None;
            }
            let b: u8 = self.input[self.pos];
            self.pos = self.pos + 1;
            if b == self.separator[0] {
                return Some(b);
            }
            let ghost prev: int = self.position() - 1;
            output.push(b);
            proof {
                assert(self.data().subrange(old(self).position(), prev + 1)
                    =~= self.data().subrange(old(self).position(), prev).push(b));
            }
        }
    }

    /// Produces the next run: writes its bytes into `output` and reports how
    /// it ended.
    ///
    /// On a terminal splitter the call fails with
    /// [`SplitError::InvalidState`] and changes nothing.  Otherwise, with
    /// `fm` the leftmost separator occurrence at or after the scan position:
    /// when there is none, the rest of the input goes to `output` and the
    /// run is a `Suffix`, leaving the splitter terminal; when there is one,
    /// the bytes strictly before it go to `output`, the occurrence itself is
    /// consumed and never written, and the run is a `Prefix` on the first
    /// such call and a `FullMatch` afterwards.
    pub fn next_to_buf(&mut self, output: &mut Vec<u8>) -> (r: SplitResult<SplitType>)
        requires
            old(self).wf(),
        ensures
            !old(self).ended() ==> final(output)@ == old(output)@ + run_content(
                old(self).data(),
                old(self).sep(),
                old(self).position(),
            ),
            !old(self).ended() ==> final(output)@ == old(output)@ + split_runs(
                old(self).data(),
                old(self).sep(),
                old(self).position(),
            )[0],
            !old(self).ended() ==> r == Ok::<SplitType, SplitError>(
                scan_classes(
                    old(self).data(),
                    old(self).sep(),
                    old(self).position(),
                    old(self).started(),
                )[0],
            ),
            !old(self).ended() ==> final(self).position() == next_scan_pos(
                old(self).data(),
                old(self).sep(),
                old(self).position(),
            ),
            final(self).wf(),
            final(self).data() == old(self).data(),
            final(self).sep() == old(self).sep(),
            final(self).prepends() == old(self).prepends(),
            old(self).ended() ==> {
                &&& r == Err::<SplitType, SplitError>(SplitError::InvalidState)
                &&& *final(self) == *old(self)
                &&& final(output)@ == old(output)@
            },
            !old(self).ended() && first_match(
                old(self).data(),
                old(self).sep(),
                old(self).position(),
            ) < 0 ==> {
                &&& r == Ok::<SplitType, SplitError>(SplitType::Suffix)
                &&& final(output)@ == old(output)@ + old(self).data().subrange(
                    old(self).position(),
                    old(self).data().len() as int,
                )
                &&& final(self).position() == old(self).data().len()
                &&& final(self).ended()
                &&& final(self).started() == old(self).started()
            },
            !old(self).ended() && first_match(
                old(self).data(),
                old(self).sep(),
                old(self).position(),
            ) >= 0 ==> ({
                let fm = first_match(old(self).data(), old(self).sep(), old(self).position());
                &&& final(output)@ == old(output)@ + old(self).data().subrange(
                    old(self).position(),
                    fm,
                )
                &&& final(self).position() == fm + old(self).sep().len()
                &&& !final(self).ended()
                &&& final(self).started()
                &&& r == Ok::<SplitType, SplitError>(
                    if old(self).started() {
                        SplitType::FullMatch
                    } else {
                        SplitType::Prefix
                    },
                )
            }),
    {
        if self.end_of_stream_reached {
            return Err(SplitError::InvalidState);
        }
        loop
            invariant
                self.wf(),
                !self.ended(),
                self.data() == old(self).data(),
                self.sep() == old(self).sep(),
                self.started() == old(self).started(),
                self.prepends() == old(self).prepends(),
                !old(self).ended(),
                old(self).wf(),
                old(self).position() <= self.position(),
                output@ == old(output)@ + self.data().subrange(
                    old(self).position(),
                    self.position(),
                ),
                first_match(self.data(), self.sep(), self.position()) == first_match(
                    old(self).data(),
                    old(self).sep(),
                    old(self).position(),
                ),
            decreases self.data().len() - self.position(),
        {
            let ghost p0: int = self.position();
            let found = self.read_until_first_separator_byte_or_eof(output);
            match found {
                None => {
                    proof {
                        lemma_skipped_bytes_no_match(
                            self.data(),
                            self.sep(),
                            p0,
                            self.data().len() as int,
                        );
                        lemma_subrange_concat(
                            self.data(),
                            old(self).position(),
                            p0,
                            self.data().len() as int,
                        );
                    }
                    self.end_of_stream_reached = true;
                    return Ok(SplitType::Suffix);
                },
                Some(b) => {
                    let c: usize = self.pos - 1;
                    proof {
                        lemma_skipped_bytes_no_match(self.data(), self.sep(), p0, c as int);
                    }
                    if self.separator_matches_at(c) {
                        proof {
                            lemma_subrange_concat(
                                self.data(),
                                old(self).position(),
                                p0,
                                c as int,
                            );
                            assert(first_match(self.data(), self.sep(), c as int) == c);
                        }
                        let n: usize = self.input.len();
                        assert(c + self.sep().len() <= n);
                        self.pos = c + self.separator.len();
                        if self.started_splitting {
                            return Ok(SplitType::FullMatch);
                        } else {
                            self.started_splitting = true;
                            return Ok(SplitType::Prefix);
                        }
                    } else {
                        output.push(b);
                        proof {
                            lemma_subrange_concat(
                                self.data(),
                                old(self).position(),
                                p0,
                                c as int,
                            );
                            assert(self.data().subrange(old(self).position(), c + 1)
                                =~= self.data().subrange(old(self).position(), c as int).push(
                                b,
                            ));
                        }
                    }
                },
            }
        }
    }

    /// The lazy sequence view: pulls one run per call and yields its bytes,
    /// or `None` once the scan is over.
    ///
    /// Each call performs one [`ByteStreamSplitter::next_to_buf`] into a
    /// fresh sink and yields the accumulated bytes.  When
    /// `next_prepends_seperator` is set, every run after the first is
    /// yielded with the separator bytes re-prepended; the first run never
    /// is.  The sequence is finite and non-restartable: after the `Suffix`
    /// run every call returns `None`.
    pub fn next(&mut self) -> (r: Option<SplitResult<Vec<u8>>>)
        requires
            old(self).wf(),
        ensures
            final(self).wf(),
            final(self).data() == old(self).data(),
            final(self).sep() == old(self).sep(),
            final(self).prepends() == old(self).prepends(),
            old(self).ended() ==> {
                &&& r == None::<SplitResult<Vec<u8>>>
                &&& *final(self) == *old(self)
            },
            !old(self).ended() ==> ({
                let content = run_content(old(self).data(), old(self).sep(), old(self).position());
                let run = if old(self).started() && old(self).prepends() {
                    old(self).sep() + content
                } else {
                    content
                };
                &&& r matches Some(item) && item matches Ok(v) && v@ == run
                &&& final(self).position() == next_scan_pos(
                    old(self).data(),
                    old(self).sep(),
                    old(self).position(),
                )
                &&& final(self).ended() == (first_match(
                    old(self).data(),
                    old(self).sep(),
                    old(self).position(),
                ) < 0)
                &&& final(self).started() == (old(self).started() || first_match(
                    old(self).data(),
                    old(self).sep(),
                    old(self).position(),
                ) >= 0)
            }),
    {
        if self.end_of_stream_reached {
            return None;
        }
        let mut part: Vec<u8> = Vec::new();
        if self.started_splitting && self.next_prepends_seperator {
            let mut i: usize = 0;
            while i < self.separator.len()
                invariant
                    *self == *old(self),
                    0 <= i <= self.sep().len(),
                    part@ == self.sep().subrange(0, i as int),
                decreases self.sep().len() - i,
            {
                part.push(self.separator[i]);
                proof {
                    assert(self.sep().subrange(0, i + 1) =~= self.sep().subrange(
                        0,
                        i as int,
                    ).push(self.sep()[i as int]));
                }
                i = i + 1;
            }
            proof {
                assert(part@ =~= self.sep());
            }
        }
        match self.next_to_buf(&mut part) {
            Ok(_kind) => Some(Ok(part)),
            Err(_e) => None,
        }
    }
}

} // verus!

