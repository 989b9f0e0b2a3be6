//! A source text with the table of its line starts, by which an offset into
//! the text is turned into a line and a column.
use crate::token::SrcLoc;
use std::path::PathBuf;
use vstd::prelude::*;
use vstd::string::StrSliceExecFns;

verus! {

/// `std::path::PathBuf`, carried as it is: nothing is said of what is inside.
#[verifier::external_type_specification]
#[verifier::external_body]
pub struct ExPathBuf(PathBuf);

/// The offsets at which the lines of a text start: 0, and the offset behind
/// each line feed.
pub open spec fn line_starts(s: Seq<char>) -> Seq<int>
    decreases s.len(),
{
    if s.len() == 0 {
        seq![0int]
    } else if s.last() == '\n' {
        line_starts(s.drop_last()).push(s.len() as int)
    } else {
        line_starts(s.drop_last())
    }
}

/// The line starts begin with 0, grow strictly and stay within the text.
pub proof fn lemma_line_starts(s: Seq<char>)
    ensures
        line_starts(s).len() >= 1,
        line_starts(s)[0] == 0,
        forall|a: int, b: int|
            0 <= a < b < line_starts(s).len() ==> line_starts(s)[a] < line_starts(s)[b],
        forall|a: int| 0 <= a < line_starts(s).len() ==> 0 <= #[trigger] line_starts(s)[a] <= s.len(),
    decreases s.len(),
{
    if s.len() > 0 {
        lemma_line_starts(s.drop_last());
    }
}

/// The values of a table of offsets.
pub open spec fn offsets_view(v: Seq<usize>) -> Seq<int> {
    Seq::new(v.len(), |i: int| v[i] as int)
}

/// A source text, where it came from, and where its lines start.
#[allow(dead_code)]
#[derive(PartialEq, Eq, Debug)]
pub struct SrcFileInfo {
    /// Source file path
    path: PathBuf,
    /// lines[x]: the offset at which line x starts
    lines: Vec<usize>,
    srcstr: String,
}

impl SrcFileInfo {
    /// The text.
    pub closed spec fn source(&self) -> Seq<char> {
        self.srcstr@
    }

    /// Where the text came from.
    pub closed spec fn path(&self) -> PathBuf {
        self.path
    }

    /// The offsets at which the lines start.
    pub closed spec fn starts(&self) -> Seq<int> {
        offsets_view(self.lines@)
    }

    #[verifier::type_invariant]
    pub closed spec fn inv(&self) -> bool {
        offsets_view(self.lines@) == line_starts(self.srcstr@)
    }

    /// The table is the table of the text's line starts.
    pub proof fn lemma_starts(&self)
        requires
            self.inv(),
        ensures
            self.starts() == line_starts(self.source()),
    {
    }

    /// The text `srcstr`, read from `path`, with the table of its lines.
    pub fn from_source(path: PathBuf, srcstr: String) -> (r: Self)
        ensures
            r.path() == path,
            r.source() == srcstr@,
            r.starts() == line_starts(srcstr@),
    {
        let lines = Self::build_lines(srcstr.as_str());
        Self { path, lines, srcstr }
    }

    /// The offsets, counted in characters, at which the lines of `srcstr`
    /// start.
    pub fn build_lines(srcstr: &str) -> (lines: Vec<usize>)
        ensures
            offsets_view(lines@) == line_starts(srcstr@),
    {
        let n = srcstr.unicode_len();
        let mut lines: Vec<usize> = Vec::new();
        lines.push(0);
        let mut total: usize = 0;
        assert(offsets_view(lines@) =~= line_starts(srcstr@.take(0)));
        while total < n
            invariant
                total <= n,
                n == srcstr@.len(),
                offsets_view(lines@) == line_starts(srcstr@.take(total as int)),
            decreases n - total,
        {
            let c = srcstr.get_char(total);
            let ghost before = offsets_view(lines@);
            total += 1;
            proof {
                assert(srcstr@.take(total as int).drop_last() =~= srcstr@.take(total - 1));
                assert(srcstr@.take(total as int).last() == c);
            }
            if c == '\n' {
                lines.push(total);
                assert(offsets_view(lines@) =~= before.push(total as int));
            }
        }
        assert(srcstr@.take(n as int) =~= srcstr@);
        lines
    }

    pub fn get_srcstr(&self) -> (r: &str)
        ensures
            r@ == self.source(),
    {
        self.srcstr.as_str()
    }

    pub fn get_path(&self) -> (r: &PathBuf)
        ensures
            *r == self.path(),
    {
        &self.path
    }

    /// The line and the column of the character at `offset`: the line is
    /// the number of line starts up to `offset`, the first line being line
    /// 1, and the column is the distance from the start of that line, the
    /// first column being column 0.
    pub fn offset2srcloc(&self, offset: usize) -> (r: SrcLoc)
        ensures
            1 <= r.ln <= self.starts().len(),
            self.starts()[r.ln - 1] <= offset,
            r.ln < self.starts().len() ==> offset < self.starts()[r.ln as int],
            r.col == offset - self.starts()[r.ln - 1],
    {
        proof {
            use_type_invariant(self);
            lemma_line_starts(self.srcstr@);
        }
        let ghost st = offsets_view(self.lines@);
        let mut lo: usize = 0;
        let mut hi: usize = self.lines.len();
        while hi - lo > 1
            invariant
                st == offsets_view(self.lines@),
                lo < hi <= self.lines@.len(),
                st[lo as int] <= offset,
                hi < st.len() ==> offset < st[hi as int],
                forall|a: int, b: int| 0 <= a < b < st.len() ==> st[a] < st[b],
            decreases hi - lo,
        {
            let mid = lo + (hi - lo) / 2;
            if self.lines[mid] <= offset {
                lo = mid;
            } else {
                hi = mid;
            }
        }
        assert(st[lo as int] == self.lines@[lo as int]);
        SrcLoc { ln: lo + 1, col: offset - self.lines[lo] }
    }
}

} // verus!
