//! Labelling glyph entries: manifest entries from boxes, assignment files, renames.
use vstd::prelude::*;

use crate::manifest::{copy_opt, opt_view, BboxRecord, GlyphEntry};
use crate::segment::GlyphBbox;
use crate::agl::{agl_name, agl_name_of};
use crate::text::{
    char_name, char_unicode_info, codepoint_string, glyph_id, glyph_id_string,
    lemma_stem_png_safe, push_char, safe_file_name,
};

verus! {

/// `e` is the fresh, unlabelled manifest entry of box `b`, the `number`-th glyph (from 1).
pub open spec fn is_entry_for(e: GlyphEntry, b: GlyphBbox, number: nat) -> bool {
    &&& e.id@ == glyph_id_string(number)
    &&& e.file@ == glyph_id_string(number) + seq!['.', 'p', 'n', 'g']
    &&& e.bbox == BboxRecord { x: b.x, y: b.y, w: b.w, h: b.h }
    &&& e.area_px == b.area
    &&& e.row == b.row
    &&& e.col == b.col
    &&& e.unicode is None
    &&& e.name is None
    &&& e.glyph_name is None
    &&& e.confidence_bits is None
}

/// One unlabelled manifest entry per box, numbered from 1 in the boxes' order:
/// `glyph_0001` in `glyph_0001.png`, and so on.
pub fn entries_from_boxes(boxes: &Vec<GlyphBbox>) -> (entries: Vec<GlyphEntry>)
    requires
        boxes.len() < usize::MAX,
    ensures
        entries.len() == boxes.len(),
        forall|i: int|
            0 <= i < boxes.len() ==> is_entry_for(#[trigger] entries@[i], boxes@[i], (i + 1) as nat),
{
    let mut entries: Vec<GlyphEntry> = Vec::new();
    let mut i: usize = 0;
    while i < boxes.len()
        invariant
            i <= boxes.len(),
            boxes.len() < usize::MAX,
            entries.len() == i,
            forall|k: int|
                0 <= k < i ==> is_entry_for(#[trigger] entries@[k], boxes@[k], (k + 1) as nat),
        decreases boxes.len() - i,
    {
        let b = boxes[i];
        let id = glyph_id(i + 1);
        let mut file = glyph_id(i + 1);
        push_char(&mut file, '.');
        push_char(&mut file, 'p');
        push_char(&mut file, 'n');
        push_char(&mut file, 'g');
        entries.push(
            GlyphEntry {
                id,
                file,
                bbox: BboxRecord { x: b.x, y: b.y, w: b.w, h: b.h },
                area_px: b.area,
                row: b.row,
                col: b.col,
                unicode: None,
                name: None,
                glyph_name: None,
                confidence_bits: None,
            },
        );
        i = i + 1;
        proof {
            assert(entries@[i - 1].file@ =~= glyph_id_string(i as nat) + seq!['.', 'p', 'n', 'g']);
        }
    }
    entries
}

/// All fields but the labelling ones agree.
pub open spec fn same_placement(a: GlyphEntry, b: GlyphEntry) -> bool {
    &&& a.id == b.id
    &&& a.file == b.file
    &&& a.bbox == b.bbox
    &&& a.area_px == b.area_px
    &&& a.row == b.row
    &&& a.col == b.col
    &&& a.glyph_name == b.glyph_name
}

/// `new` is `old` labelled with the codepoint and name of `c`.
pub open spec fn labelled_with_char(new: GlyphEntry, old: GlyphEntry, c: char) -> bool {
    &&& same_placement(new, old)
    &&& new.confidence_bits == old.confidence_bits
    &&& opt_view(new.unicode) == Some(codepoint_string(c as u32))
    &&& opt_view(new.name) == Some(char_name(c))
}

/// The characters of the sequence label the glyphs in order; glyphs past its end keep
/// their labels.
pub open spec fn sequence_applied(old: Seq<GlyphEntry>, new: Seq<GlyphEntry>, chars: Seq<char>) -> bool {
    &&& new.len() == old.len()
    &&& forall|i: int|
        0 <= i < old.len() ==> if i < chars.len() {
            labelled_with_char(#[trigger] new[i], old[i], chars[i])
        } else {
            new[i] == old[i]
        }
}

/// Assign the characters of `sequence` to the glyphs in reading order.
pub fn apply_sequence(glyphs: &mut Vec<GlyphEntry>, sequence: &str)
    ensures
        sequence_applied(old(glyphs)@, final(glyphs)@, sequence@),
{
    let n = sequence.unicode_len();
    let mut i: usize = 0;
    while i < glyphs.len() && i < n
        invariant
            n == sequence@.len(),
            glyphs.len() == old(glyphs).len(),
            i <= glyphs.len(),
            i <= n,
            forall|k: int|
                0 <= k < glyphs.len() ==> if k < i {
                    labelled_with_char(#[trigger] glyphs@[k], old(glyphs)@[k], sequence@[k])
                } else {
                    glyphs@[k] == old(glyphs)@[k]
                },
        decreases glyphs.len() - i,
    {
        let c = sequence.get_char(i);
        let (unicode, name) = char_unicode_info(c);
        let g = glyphs[i].copy();
        let updated = GlyphEntry { unicode: Some(unicode), name: Some(name), ..g };
        glyphs.set(i, updated);
        i = i + 1;
    }
    assert(i == glyphs.len() || i == n);
    assert forall|k: int| 0 <= k < old(glyphs).len() implies if k < sequence@.len() {
        labelled_with_char(#[trigger] glyphs@[k], old(glyphs)@[k], sequence@[k])
    } else {
        glyphs@[k] == old(glyphs)@[k]
    } by {}
}

/// One entry of a per-glyph assignment: the glyph ID and the labels it gets.
#[derive(Debug)]
pub struct AssignmentEntry {
    pub id: String,
    pub unicode: Option<String>,
    pub name: Option<String>,
}

/// An assignments document: a `sequence` string, or else a per-glyph mapping.
#[derive(Debug)]
pub struct AssignmentDoc {
    /// The `sequence` member, when it is a string.
    pub sequence: Option<String>,
    /// The members of the document, when it is an object.
    pub entries: Option<Vec<AssignmentEntry>>,
}

/// Index of the first entry from `from` on with the given ID.
pub open spec fn first_match(entries: Seq<AssignmentEntry>, id: Seq<char>, from: int) -> Option<int>
    decreases entries.len() - from,
{
    if from < 0 || from >= entries.len() {
        None
    } else if entries[from].id@ == id {
        Some(from)
    } else {
        first_match(entries, id, from + 1)
    }
}

/// `new` is `old` with the labels of the assignment entry (either may be absent).
pub open spec fn labelled_from_entry(new: GlyphEntry, old: GlyphEntry, e: AssignmentEntry) -> bool {
    &&& same_placement(new, old)
    &&& new.confidence_bits == old.confidence_bits
    &&& new.unicode == e.unicode
    &&& new.name == e.name
}

/// Each glyph with an entry under its ID takes that entry's labels; the others keep theirs.
pub open spec fn mapping_applied(
    old: Seq<GlyphEntry>,
    new: Seq<GlyphEntry>,
    entries: Seq<AssignmentEntry>,
) -> bool {
    &&& new.len() == old.len()
    &&& forall|i: int|
        0 <= i < old.len() ==> match first_match(entries, old[i].id@, 0) {
            Some(k) => labelled_from_entry(#[trigger] new[i], old[i], entries[k]),
            None => new[i] == old[i],
        }
}

fn find_entry(entries: &Vec<AssignmentEntry>, id: &String) -> (r: Option<usize>)
    ensures
        r matches Some(k) ==> k < entries.len(),
        match r {
            Some(k) => first_match(entries@, id@, 0) == Some(k as int),
            None => first_match(entries@, id@, 0) is None,
        },
{
    let mut k: usize = 0;
    while k < entries.len()
        invariant
            k <= entries.len(),
            first_match(entries@, id@, 0) == first_match(entries@, id@, k as int),
        decreases entries.len() - k,
    {
        if entries[k].id == *id {
            return Some(k);
        }
        k = k + 1;
    }
    None
}

/// Assign labels by glyph ID.
pub fn apply_mapping(glyphs: &mut Vec<GlyphEntry>, entries: &Vec<AssignmentEntry>)
    ensures
        mapping_applied(old(glyphs)@, final(glyphs)@, entries@),
{
    let mut i: usize = 0;
    while i < glyphs.len()
        invariant
            glyphs.len() == old(glyphs).len(),
            i <= glyphs.len(),
            forall|k: int|
                0 <= k < glyphs.len() ==> if k < i {
                    match first_match(entries@, old(glyphs)@[k].id@, 0) {
                        Some(j) => labelled_from_entry(#[trigger] glyphs@[k], old(glyphs)@[k], entries@[j]),
                        None => glyphs@[k] == old(glyphs)@[k],
                    }
                } else {
                    glyphs@[k] == old(glyphs)@[k]
                },
        decreases glyphs.len() - i,
    {
        match find_entry(entries, &glyphs[i].id) {
            Some(k) => {
                let g = glyphs[i].copy();
                let e = &entries[k];
                let updated = GlyphEntry {
                    unicode: copy_opt(&e.unicode),
                    name: copy_opt(&e.name),
                    ..g
                };
                glyphs.set(i, updated);
            },
            None => {},
        }
        i = i + 1;
    }
}

/// Apply an assignments document: its sequence when it has one, else its per-glyph mapping.
pub fn apply_assignments(glyphs: &mut Vec<GlyphEntry>, doc: &AssignmentDoc)
    ensures
        match doc.sequence {
            Some(s) => sequence_applied(old(glyphs)@, final(glyphs)@, s@),
            None => match doc.entries {
                Some(e) => mapping_applied(old(glyphs)@, final(glyphs)@, e@),
                None => final(glyphs)@ == old(glyphs)@,
            },
        },
{
    match &doc.sequence {
        Some(s) => apply_sequence(glyphs, s.as_str()),
        None => match &doc.entries {
            Some(e) => apply_mapping(glyphs, e),
            None => {},
        },
    }
}

/// The file name a labelled glyph gets: its glyph name and `.png`.
pub open spec fn agl_file_name(unicode: Seq<char>) -> Seq<char> {
    agl_name_of(unicode) + seq!['.', 'p', 'n', 'g']
}

/// The name a labelled glyph's file gets, unless it already has it: `None` for an
/// unlabelled glyph.
pub open spec fn rename_target_of(g: GlyphEntry) -> Option<Seq<char>> {
    match g.unicode {
        None => None,
        Some(u) => {
            let f = agl_file_name(u@);
            if f == g.file@ {
                None
            } else {
                Some(f)
            }
        },
    }
}

/// The new file name of a labelled glyph whose file has another name: its glyph name and
/// `.png`, a single safe file name.
pub fn rename_target(g: &GlyphEntry) -> (r: Option<String>)
    ensures
        opt_view(r) == rename_target_of(*g),
        r matches Some(f) ==> safe_file_name(f@),
{
    match &g.unicode {
        None => None,
        Some(u) => {
            let mut f = agl_name(u.as_str());
            let ghost base = f@;
            push_char(&mut f, '.');
            push_char(&mut f, 'p');
            push_char(&mut f, 'n');
            push_char(&mut f, 'g');
            proof {
                assert(f@ =~= base + seq!['.', 'p', 'n', 'g']);
                lemma_stem_png_safe(base);
            }
            if f == g.file {
                None
            } else {
                Some(f)
            }
        },
    }
}

/// `new` is `old` with its glyph name filled in from its codepoint, when it has one.
pub open spec fn glyph_name_filled(new: GlyphEntry, old: GlyphEntry) -> bool {
    &&& new.id == old.id
    &&& new.file == old.file
    &&& new.bbox == old.bbox
    &&& new.area_px == old.area_px
    &&& new.row == old.row
    &&& new.col == old.col
    &&& new.unicode == old.unicode
    &&& new.name == old.name
    &&& new.confidence_bits == old.confidence_bits
    &&& match old.unicode {
        Some(u) => opt_view(new.glyph_name) == Some(agl_name_of(u@)),
        None => new.glyph_name == old.glyph_name,
    }
}

/// Fill in the `glyph_name` field (AGL name) for every entry that has a Unicode codepoint.
pub fn populate_glyph_names(glyphs: &mut Vec<GlyphEntry>)
    ensures
        final(glyphs).len() == old(glyphs).len(),
        forall|i: int|
            0 <= i < old(glyphs).len() ==> glyph_name_filled(#[trigger] final(glyphs)@[i], old(glyphs)@[i]),
{
    let mut i: usize = 0;
    while i < glyphs.len()
        invariant
            glyphs.len() == old(glyphs).len(),
            i <= glyphs.len(),
            forall|k: int|
                0 <= k < glyphs.len() ==> if k < i {
                    glyph_name_filled(#[trigger] glyphs@[k], old(glyphs)@[k])
                } else {
                    glyphs@[k] == old(glyphs)@[k]
                },
        decreases glyphs.len() - i,
    {
        let g = glyphs[i].copy();
        match &g.unicode {
            Some(u) => {
                let name = agl_name(u.as_str());
                let updated = GlyphEntry { glyph_name: Some(name), ..g };
                glyphs.set(i, updated);
            },
            None => {},
        }
        i = i + 1;
    }
}

/// Once a glyph's file carries the name its labels call for, no further rename is due.
pub proof fn law_rename_settles(g: GlyphEntry, f: String)
    requires
        rename_target_of(g) == Some(f@),
    ensures
        rename_target_of(GlyphEntry { file: f, ..g }) is None,
{
}

/// Indices of the glyphs among the first `n` that have no codepoint yet, ascending.
pub open spec fn unlabeled_upto(glyphs: Seq<GlyphEntry>, n: int) -> Seq<usize>
    decreases n,
{
    if n <= 0 {
        seq![]
    } else if glyphs[n - 1].unicode is None {
        unlabeled_upto(glyphs, n - 1).push((n - 1) as usize)
    } else {
        unlabeled_upto(glyphs, n - 1)
    }
}

/// Indices of the glyphs that have no codepoint yet, ascending.
pub fn unlabeled_indices(glyphs: &Vec<GlyphEntry>) -> (r: Vec<usize>)
    ensures
        r@ == unlabeled_upto(glyphs@, glyphs.len() as int),
{
    let mut r: Vec<usize> = Vec::new();
    let mut i: usize = 0;
    while i < glyphs.len()
        invariant
            i <= glyphs.len(),
            r@ == unlabeled_upto(glyphs@, i as int),
        decreases glyphs.len() - i,
    {
        if glyphs[i].unicode.is_none() {
            r.push(i);
        }
        i = i + 1;
    }
    r
}

/// Indices `0..n`.
pub fn all_indices(n: usize) -> (r: Vec<usize>)
    ensures
        r@ == Seq::new(n as nat, |i: int| i as usize),
{
    let mut r: Vec<usize> = Vec::new();
    let mut i: usize = 0;
    while i < n
        invariant
            i <= n,
            r@ == Seq::new(i as nat, |k: int| k as usize),
        decreases n - i,
    {
        r.push(i);
        i = i + 1;
        assert(r@ =~= Seq::new(i as nat, |k: int| k as usize));
    }
    r
}

/// Record a label found for the glyph at `idx`: codepoint, name and confidence.
pub fn record_label(
    glyphs: &mut Vec<GlyphEntry>,
    idx: usize,
    unicode: String,
    name: String,
    confidence_bits: u32,
)
    requires
        idx < old(glyphs).len(),
    ensures
        final(glyphs).len() == old(glyphs).len(),
        forall|j: int| 0 <= j < old(glyphs).len() && j != idx ==> final(glyphs)@[j] == old(glyphs)@[j],
        same_placement(final(glyphs)@[idx as int], old(glyphs)@[idx as int]),
        final(glyphs)@[idx as int].unicode == Some(unicode),
        final(glyphs)@[idx as int].name == Some(name),
        final(glyphs)@[idx as int].confidence_bits == Some(confidence_bits),
{
    let g = glyphs[idx].copy();
    let updated = GlyphEntry {
        unicode: Some(unicode),
        name: Some(name),
        confidence_bits: Some(confidence_bits),
        ..g
    };
    glyphs.set(idx, updated);
}

} // verus!
