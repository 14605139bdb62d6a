//! The in-memory image: a row-major RGBA grid with its dimensions and the
//! name parts of the file it came from.
//!
//! Decoding and encoding image files is left to unverified callers; they
//! hand [`Image::read_image`] the decoded grid together with the raw bytes
//! of the input path, and the verified code derives the display name and the
//! extension from those bytes exactly as specified below.

use vstd::prelude::*;
use crate::pixel::Pixel;

verus! {

/// Width and height of a pixel grid, in pixels.
#[derive(Clone, Copy, PartialEq, Eq, Structural, Debug)]
pub struct ImageDimensions {
    pub width: u32,
    pub height: u32,
}

/// A decoded image: its pixels in row-major order (the pixel at column `x`,
/// row `y` sits at index `y * width + x`), its dimensions, and the name and
/// extension of the file it was read from.
pub struct Image {
    pub pixels: Vec<Pixel>,
    pub dimensions: ImageDimensions,
    /// The file name without directories and without everything from the
    /// first dot on.
    pub image_name: Vec<u8>,
    /// The part of the file name after its last dot.
    pub image_extension: Vec<u8>,
}

/// Byte value of `/`.
pub const SLASH: u8 = 47;

/// Byte value of `.`.
pub const DOT: u8 = 46;

/// The position right after the last slash of `path`, or 0 when there is
/// none: where the file name begins.
pub open spec fn file_name_start(path: Seq<u8>) -> int
    decreases path.len(),
{
    if path.len() == 0 {
        0
    } else if path.last() == SLASH {
        path.len() as int
    } else {
        file_name_start(path.drop_last())
    }
}

/// The file name of `path`: everything after its last slash.
pub open spec fn spec_file_name(path: Seq<u8>) -> Seq<u8> {
    path.subrange(file_name_start(path), path.len() as int)
}

/// The index of the first dot of `s`, or its length when there is none.
pub open spec fn first_dot(s: Seq<u8>) -> int
    decreases s.len(),
{
    if s.len() == 0 {
        0
    } else if s[0] == DOT {
        0
    } else {
        1 + first_dot(s.drop_first())
    }
}

/// The position right after the last dot of `s`, or 0 when there is none.
pub open spec fn after_last_dot(s: Seq<u8>) -> int
    decreases s.len(),
{
    if s.len() == 0 {
        0
    } else if s.last() == DOT {
        s.len() as int
    } else {
        after_last_dot(s.drop_last())
    }
}

/// A file name carries an extension when it has a dot somewhere after its
/// first byte (a name that starts with its only dot is a hidden file, not
/// an extension).
pub open spec fn has_extension(path: Seq<u8>) -> bool {
    after_last_dot(spec_file_name(path)) >= 2
}

/// The display name of the file behind `path`: the file name up to its
/// first dot.
pub open spec fn spec_image_name(path: Seq<u8>) -> Seq<u8> {
    spec_file_name(path).subrange(0, first_dot(spec_file_name(path)))
}

/// The extension of the file behind `path`: the file name after its last
/// dot.
pub open spec fn spec_image_extension(path: Seq<u8>) -> Seq<u8> {
    spec_file_name(path).subrange(
        after_last_dot(spec_file_name(path)),
        spec_file_name(path).len() as int,
    )
}

/// `v` marks the start of the file name exactly when everything from `v`
/// on is slash-free and `v` is 0 or preceded by a slash.
proof fn lemma_file_name_start_position(s: Seq<u8>, v: int)
    requires
        0 <= v <= s.len(),
        v > 0 ==> s[v - 1] == SLASH,
        forall|k: int| v <= k < s.len() ==> s[k] != SLASH,
    ensures
        file_name_start(s) == v,
    decreases s.len(),
{
    if s.len() == 0 {
    } else if s.last() == SLASH {
        if v < s.len() {
            assert(s[s.len() - 1] != SLASH);
        }
    } else {
        assert(v < s.len());
        lemma_file_name_start_position(s.drop_last(), v);
    }
}

/// `v` is the position after the last dot exactly when everything from `v`
/// on is dot-free and `v` is 0 or preceded by a dot.
proof fn lemma_after_last_dot_position(s: Seq<u8>, v: int)
    requires
        0 <= v <= s.len(),
        v > 0 ==> s[v - 1] == DOT,
        forall|k: int| v <= k < s.len() ==> s[k] != DOT,
    ensures
        after_last_dot(s) == v,
    decreases s.len(),
{
    if s.len() == 0 {
    } else if s.last() == DOT {
        if v < s.len() {
            assert(s[s.len() - 1] != DOT);
        }
    } else {
        assert(v < s.len());
        lemma_after_last_dot_position(s.drop_last(), v);
    }
}

/// `v` is the first dot exactly when everything before `v` is dot-free and
/// `v` is the length or holds a dot.
proof fn lemma_first_dot_position(s: Seq<u8>, v: int)
    requires
        0 <= v <= s.len(),
        v < s.len() ==> s[v] == DOT,
        forall|k: int| 0 <= k < v ==> s[k] != DOT,
    ensures
        first_dot(s) == v,
    decreases s.len(),
{
    if s.len() == 0 {
    } else if s[0] == DOT {
        assert(v == 0);
    } else {
        assert(v > 0);
        let t = s.drop_first();
        assert(forall|k: int| 0 <= k < v - 1 ==> t[k] == s[k + 1] && t[k] != DOT);
        lemma_first_dot_position(t, v - 1);
    }
}

/// Copies a byte vector.
pub(crate) fn copy_bytes(v: &Vec<u8>) -> (out: Vec<u8>)
    ensures
        out@ == v@,
{
    let mut out: Vec<u8> = Vec::new();
    let mut i: usize = 0;
    while i < v.len()
        invariant
            i <= v@.len(),
            out@ == v@.subrange(0, i as int),
        decreases v@.len() - i,
    {
        out.push(v[i]);
        proof {
            assert(out@ =~= v@.subrange(0, i + 1));
        }
        i = i + 1;
    }
    proof {
        assert(v@.subrange(0, v@.len() as int) =~= v@);
    }
    out
}

impl Image {
    /// The grid is well-formed: it holds exactly `width * height` pixels.
    pub open spec fn wf(&self) -> bool {
        self.pixels@.len() == (self.dimensions.width as int) * (self.dimensions.height as int)
    }

    /// Builds the image from an already decoded pixel grid and the raw
    /// bytes of the path it was read from.  The display name and the
    /// extension are cut out of the path: the name runs from the last
    /// slash to the first dot after it, the extension from the last dot of
    /// the file name to its end.  The path must name a file with an
    /// extension, and the grid must match the dimensions.
    pub fn read_image(width: u32, height: u32, pixels: Vec<Pixel>, path: Vec<u8>) -> (img: Image)
        requires
            pixels@.len() == (width as int) * (height as int),
            has_extension(path@),
        ensures
            img.wf(),
            img.dimensions == (ImageDimensions { width, height }),
            img.pixels@ == pixels@,
            img.image_name@ == spec_image_name(path@),
            img.image_extension@ == spec_image_extension(path@),
    {
        let n = path.len();
        // where the file name begins: right after the last slash
        let mut start: usize = n;
        while start > 0 && path[start - 1] != SLASH
            invariant
                start <= n == path@.len(),
                forall|k: int| start <= k < n ==> path@[k] != SLASH,
            decreases start,
        {
            start = start - 1;
        }
        proof {
            lemma_file_name_start_position(path@, start as int);
        }
        let ghost fname = spec_file_name(path@);
        // the position after the last dot of the file name
        let mut dot: usize = n;
        while dot > start && path[dot - 1] != DOT
            invariant
                start <= dot <= n == path@.len(),
                forall|k: int| dot <= k < n ==> path@[k] != DOT,
            decreases dot,
        {
            dot = dot - 1;
        }
        proof {
            assert(forall|k: int|
                dot - start <= k < fname.len() ==> fname[k] == path@[start + k] && fname[k] != DOT);
            lemma_after_last_dot_position(fname, dot - start);
        }
        // the first dot at or after the file name start ends the display name
        let mut name_end: usize = start;
        while name_end < n && path[name_end] != DOT
            invariant
                start <= name_end <= n == path@.len(),
                forall|k: int| start <= k < name_end ==> path@[k] != DOT,
            decreases n - name_end,
        {
            name_end = name_end + 1;
        }
        proof {
            assert(forall|k: int|
                0 <= k < name_end - start ==> fname[k] == path@[start + k] && fname[k] != DOT);
            if name_end < n {
                assert(fname[name_end - start] == path@[name_end as int]);
            }
            lemma_first_dot_position(fname, name_end - start);
        }
        let mut image_name: Vec<u8> = Vec::new();
        let mut i: usize = start;
        while i < name_end
            invariant
                start <= i <= name_end <= path@.len(),
                image_name@ == path@.subrange(start as int, i as int),
            decreases name_end - i,
        {
            image_name.push(path[i]);
            proof {
                assert(image_name@ =~= path@.subrange(start as int, i + 1));
            }
            i = i + 1;
        }
        let mut image_extension: Vec<u8> = Vec::new();
        let mut j: usize = dot;
        while j < n
            invariant
                dot <= j <= n == path@.len(),
                image_extension@ == path@.subrange(dot as int, j as int),
            decreases n - j,
        {
            image_extension.push(path[j]);
            proof {
                assert(image_extension@ =~= path@.subrange(dot as int, j + 1));
            }
            j = j + 1;
        }
        proof {
            assert(image_name@ =~= spec_image_name(path@));
            assert(image_extension@ =~= spec_image_extension(path@));
        }
        Image { pixels, dimensions: ImageDimensions { width, height }, image_name, image_extension }
    }

    /// The file name under which the sorted image is saved: the display
    /// name, then `_sorted`, then the original extension when there is one.
    pub fn sorted_file_name(&self) -> (out: Vec<u8>)
        ensures
            out@ == self.image_name@ + sorted_suffix() + (if self.image_extension@.len() > 0 {
                seq![DOT] + self.image_extension@
            } else {
                Seq::<u8>::empty()
            }),
    {
        let mut out = copy_bytes(&self.image_name);
        out.push(95);  // _
        out.push(115);  // s
        out.push(111);  // o
        out.push(114);  // r
        out.push(116);  // t
        out.push(101);  // e
        out.push(100);  // d
        proof {
            assert(out@ =~= self.image_name@ + sorted_suffix());
        }
        if self.image_extension.len() > 0 {
            out.push(DOT);
            let mut i: usize = 0;
            while i < self.image_extension.len()
                invariant
                    i <= self.image_extension@.len(),
                    out@ == self.image_name@ + sorted_suffix() + seq![DOT]
                        + self.image_extension@.subrange(0, i as int),
                decreases self.image_extension@.len() - i,
            {
                out.push(self.image_extension[i]);
                proof {
                    assert(out@ =~= self.image_name@ + sorted_suffix() + seq![DOT]
                        + self.image_extension@.subrange(0, i + 1));
                }
                i = i + 1;
            }
            proof {
                assert(self.image_extension@.subrange(0, self.image_extension@.len() as int)
                    =~= self.image_extension@);
                assert(out@ =~= self.image_name@ + sorted_suffix() + (seq![DOT]
                    + self.image_extension@));
            }
        }
        out
    }
}

/// The bytes of `_sorted`.
pub open spec fn sorted_suffix() -> Seq<u8> {
    seq![95u8, 115u8, 111u8, 114u8, 116u8, 101u8, 100u8]
}

} // verus!
