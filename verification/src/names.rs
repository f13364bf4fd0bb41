//! File names as byte strings: extensions, stems, and the fixed names the
//! pipeline works with.
//!
//! A directory entry is modelled as the byte string of its file name.  The
//! extension of a name is everything after the last dot, provided that dot is
//! not the leading byte (so `.html` is a stem-only name, as the platform's
//! path routines treat it).

use vstd::prelude::*;

verus! {

/// ASCII `.`, the byte separating a stem from its extension.
pub const DOT: u8 = 46;

/// Index of the dot that starts the extension of `name`: the last dot of the
/// name, unless the only dot is the leading byte, in which case the name has
/// no extension.
pub open spec fn ext_dot(name: Seq<u8>) -> Option<int>
    decreases name.len(),
{
    if name.len() <= 1 {
        None
    } else if name.last() == DOT {
        Some(name.len() - 1)
    } else {
        ext_dot(name.drop_last())
    }
}

/// The extension of `name` (the bytes after the last dot), if it has one.
pub open spec fn extension_of(name: Seq<u8>) -> Option<Seq<u8>> {
    match ext_dot(name) {
        Some(i) => Some(name.subrange(i + 1, name.len() as int)),
        None => None,
    }
}

/// The stem of `name`: everything before the extension's dot, or the whole
/// name when there is no extension.
pub open spec fn stem_of(name: Seq<u8>) -> Seq<u8> {
    match ext_dot(name) {
        Some(i) => name.subrange(0, i),
        None => name,
    }
}

/// The bytes of `html`.
pub open spec fn html_ext() -> Seq<u8> {
    seq![104u8, 116u8, 109u8, 108u8]
}

/// The bytes of `pdf`.
pub open spec fn pdf_ext() -> Seq<u8> {
    seq![112u8, 100u8, 102u8]
}

/// The bytes of `.pdf`, the suffix given to every conversion output.
pub open spec fn pdf_dot_ext() -> Seq<u8> {
    seq![DOT, 112u8, 100u8, 102u8]
}

/// The bytes of `merged_output.pdf`, the reserved name of the merge result.
pub open spec fn merged_output() -> Seq<u8> {
    seq![
        109u8, 101u8, 114u8, 103u8, 101u8, 100u8, 95u8, 111u8, 117u8, 116u8, 112u8, 117u8,
        116u8, DOT, 112u8, 100u8, 102u8,
    ]
}

/// A name is a conversion input exactly when its extension is `html`.
pub open spec fn is_html_name(name: Seq<u8>) -> bool {
    extension_of(name) == Some(html_ext())
}

/// The extension dot, when there is one, lies strictly inside the name and
/// carries a dot byte.
pub proof fn lemma_ext_dot_bounds(name: Seq<u8>)
    ensures
        ext_dot(name) matches Some(i) ==> 1 <= i < name.len() && name[i] == DOT,
    decreases name.len(),
{
    if name.len() > 1 && name.last() != DOT {
        lemma_ext_dot_bounds(name.drop_last());
    }
}

/// A name assembled as `stem`, dot, `ext` has exactly that stem and that
/// extension, provided the stem is non-empty and the extension holds no dot.
pub proof fn lemma_ext_dot_of_append(stem: Seq<u8>, ext: Seq<u8>)
    requires
        stem.len() >= 1,
        forall|i: int| 0 <= i < ext.len() ==> ext[i] != DOT,
    ensures
        ext_dot(stem + seq![DOT] + ext) == Some(stem.len() as int),
        extension_of(stem + seq![DOT] + ext) == Some(ext),
        stem_of(stem + seq![DOT] + ext) == stem,
    decreases ext.len(),
{
    let name = stem + seq![DOT] + ext;
    if ext.len() == 0 {
        assert(name =~= stem + seq![DOT]);
        assert(name.last() == DOT);
    } else {
        assert(name.last() == ext.last());
        assert(name.drop_last() =~= stem + seq![DOT] + ext.drop_last());
        lemma_ext_dot_of_append(stem, ext.drop_last());
    }
    assert(name.subrange(stem.len() as int + 1, name.len() as int) =~= ext);
    assert(name.subrange(0, stem.len() as int) =~= stem);
}

/// An `.html` name is exactly its stem, a dot, and `html`.
pub proof fn lemma_html_name_recompose(name: Seq<u8>)
    requires
        is_html_name(name),
    ensures
        name == stem_of(name) + seq![DOT] + html_ext(),
        stem_of(name).len() >= 1,
{
    lemma_ext_dot_bounds(name);
    let i: int = ext_dot(name)->Some_0;
    assert(name =~= name.subrange(0, i) + seq![name[i]] + name.subrange(i + 1, name.len() as int));
}

/// Two `.html` names with the same stem are the same name.
pub proof fn lemma_html_stem_injective(a: Seq<u8>, b: Seq<u8>)
    requires
        is_html_name(a),
        is_html_name(b),
        stem_of(a) == stem_of(b),
    ensures
        a == b,
{
    lemma_html_name_recompose(a);
    lemma_html_name_recompose(b);
}

/// Index of the extension dot of `name`, found by scanning from the end.
pub fn find_ext_dot(name: &Vec<u8>) -> (r: Option<usize>)
    ensures
        r matches Some(i) ==> ext_dot(name@) == Some(i as int),
        r is None ==> ext_dot(name@) is None,
{
    let mut k: usize = name.len();
    assert(name@.take(k as int) =~= name@);
    while k > 1
        invariant
            k <= name@.len(),
            ext_dot(name@) == ext_dot(name@.take(k as int)),
        decreases k,
    {
        if name[k - 1] == DOT {
            assert(name@.take(k as int).last() == DOT);
            return Some(k - 1);
        }
        assert(name@.take(k as int).drop_last() =~= name@.take(k - 1 as int));
        k = k - 1;
    }
    None
}

/// Whether the extension of `name` is exactly `ext`.
pub fn extension_is(name: &Vec<u8>, ext: &Vec<u8>) -> (r: bool)
    ensures
        r == (extension_of(name@) == Some(ext@)),
{
    match find_ext_dot(name) {
        None => false,
        Some(i) => {
            proof {
                lemma_ext_dot_bounds(name@);
            }
            if name.len() - (i + 1) != ext.len() {
                return false;
            }
            let mut j: usize = 0;
            while j < ext.len()
                invariant
                    ext_dot(name@) == Some(i as int),
                    name@.len() <= usize::MAX,
                    i + 1 + ext@.len() == name@.len(),
                    j <= ext@.len(),
                    forall|m: int| 0 <= m < j ==> name@[i + 1 + m] == ext@[m],
                decreases ext@.len() - j,
            {
                if name[i + 1 + j] != ext[j] {
                    assert(name@.subrange(i + 1, name@.len() as int)[j as int] != ext@[j as int]);
                    return false;
                }
                j = j + 1;
            }
            assert(name@.subrange(i + 1, name@.len() as int) =~= ext@);
            true
        },
    }
}

/// The name of the PDF produced for `name`: the stem of `name` followed by
/// `.pdf`.
pub fn pdf_name_for(name: &Vec<u8>) -> (r: Vec<u8>)
    ensures
        r@ == stem_of(name@) + pdf_dot_ext(),
{
    let stem_len: usize = match find_ext_dot(name) {
        Some(i) => {
            proof {
                lemma_ext_dot_bounds(name@);
            }
            i
        },
        None => name.len(),
    };
    let mut out: Vec<u8> = Vec::new();
    let mut j: usize = 0;
    while j < stem_len
        invariant
            stem_len <= name@.len(),
            j <= stem_len,
            out@ == name@.take(j as int),
        decreases stem_len - j,
    {
        out.push(name[j]);
        assert(out@ =~= name@.take(j + 1));
        j = j + 1;
    }
    assert(out@ =~= stem_of(name@));
    out.push(DOT);
    out.push(112);
    out.push(100);
    out.push(102);
    assert(out@ =~= stem_of(name@) + pdf_dot_ext());
    out
}

/// ASCII `/`, the path separator.
pub const SLASH: u8 = 47;

/// The path of `name` inside `dir`: the directory, a slash, the name.
pub fn join_path(dir: &Vec<u8>, name: &Vec<u8>) -> (r: Vec<u8>)
    ensures
        r@ == dir@ + seq![SLASH] + name@,
{
    let mut out: Vec<u8> = Vec::new();
    let mut j: usize = 0;
    while j < dir.len()
        invariant
            j <= dir@.len(),
            out@ == dir@.take(j as int),
        decreases dir@.len() - j,
    {
        out.push(dir[j]);
        assert(out@ =~= dir@.take(j + 1));
        j = j + 1;
    }
    assert(out@ =~= dir@);
    out.push(SLASH);
    assert(out@ =~= dir@ + seq![SLASH] + name@.take(0));
    let mut k: usize = 0;
    while k < name.len()
        invariant
            k <= name@.len(),
            out@ == dir@ + seq![SLASH] + name@.take(k as int),
        decreases name@.len() - k,
    {
        out.push(name[k]);
        assert(out@ =~= dir@ + seq![SLASH] + name@.take(k + 1));
        k = k + 1;
    }
    assert(out@ =~= dir@ + seq![SLASH] + name@);
    out
}

/// Whether two names are the same byte string.
pub fn bytes_eq(a: &Vec<u8>, b: &Vec<u8>) -> (r: bool)
    ensures
        r == (a@ == b@),
{
    if a.len() != b.len() {
        return false;
    }
    let mut j: usize = 0;
    while j < a.len()
        invariant
            a@.len() == b@.len(),
            j <= a@.len(),
            forall|m: int| 0 <= m < j ==> a@[m] == b@[m],
        decreases a@.len() - j,
    {
        if a[j] != b[j] {
            return false;
        }
        j = j + 1;
    }
    assert(a@ =~= b@);
    true
}

/// The exec value of `html`.
pub fn html_extension() -> (r: Vec<u8>)
    ensures
        r@ == html_ext(),
{
    let mut v: Vec<u8> = Vec::new();
    v.push(104);
    v.push(116);
    v.push(109);
    v.push(108);
    assert(v@ =~= html_ext());
    v
}

/// The exec value of `pdf`.
pub fn pdf_extension() -> (r: Vec<u8>)
    ensures
        r@ == pdf_ext(),
{
    let mut v: Vec<u8> = Vec::new();
    v.push(112);
    v.push(100);
    v.push(102);
    assert(v@ =~= pdf_ext());
    v
}

/// The exec value of `merged_output.pdf`.
pub fn merged_output_name() -> (r: Vec<u8>)
    ensures
        r@ == merged_output(),
{
    let mut v: Vec<u8> = Vec::new();
    v.push(109);
    v.push(101);
    v.push(114);
    v.push(103);
    v.push(101);
    v.push(100);
    v.push(95);
    v.push(111);
    v.push(117);
    v.push(116);
    v.push(112);
    v.push(117);
    v.push(116);
    v.push(DOT);
    v.push(112);
    v.push(100);
    v.push(102);
    assert(v@ =~= merged_output());
    v
}

} // verus!
