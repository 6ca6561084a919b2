//! A state written out as the lines of a table of positions and facelets,
//! face by face, for pasting into the definition of a puzzle.

use crate::text::{decimal, write_decimal};
use vstd::prelude::*;
use vstd::string::StringExecFns;

verus! {

/// The lines as texts.
pub open spec fn lines_view(lines: Seq<String>) -> Seq<Seq<char>> {
    Seq::new(lines.len(), |i: int| lines[i]@)
}

/// The line that opens the entries of a face.
pub open spec fn face_line(face: Seq<char>) -> Seq<char> {
    "        // "@ + face
}

/// The line of one entry: a position and the facelet at it.
pub open spec fn entry_line(entry: (usize, usize)) -> Seq<char> {
    " ("@ + decimal(entry.0 as nat) + ", "@ + decimal(entry.1 as nat) + "),"@
}

/// The face named before entry `i`: that of the entry before it, or the empty
/// name before the first entry.
pub open spec fn face_before(faces: Seq<Seq<char>>, i: int) -> Seq<char> {
    if i <= 0 {
        Seq::empty()
    } else {
        faces[i - 1]
    }
}

/// The lines of the first `count` entries: each entry on a line of its own,
/// after the line of its face where the face differs from that of the entry
/// before.
pub open spec fn entry_lines(
    entries: Seq<(usize, usize)>,
    faces: Seq<Seq<char>>,
    count: nat,
) -> Seq<Seq<char>>
    decreases count,
{
    if count == 0 {
        Seq::empty()
    } else {
        let i = count - 1;
        let front = entry_lines(entries, faces, i as nat);
        let opened = if faces[i] != face_before(faces, i) {
            front.push(face_line(faces[i]))
        } else {
            front
        };
        opened.push(entry_line(entries[i]))
    }
}

/// The whole table: a first line, the lines of the entries, a last line.
pub open spec fn table_lines(
    first: Seq<char>,
    entries: Seq<(usize, usize)>,
    faces: Seq<Seq<char>>,
    last: Seq<char>,
) -> Seq<Seq<char>> {
    seq![first] + entry_lines(entries, faces, entries.len()) + seq![last]
}

/// The table of the entries, each with the name of its face, between a first
/// and a last line.
pub fn write_table(
    first: &str,
    entries: &Vec<(usize, usize)>,
    faces: &Vec<String>,
    last: &str,
) -> (lines: Vec<String>)
    requires
        entries@.len() == faces@.len(),
    ensures
        lines_view(lines@) == table_lines(first@, entries@, lines_view(faces@), last@),
{
    let ghost names = lines_view(faces@);
    let mut lines: Vec<String> = Vec::new();
    lines.push(String::from_str(first));
    assert(lines_view(lines@) =~= seq![first@]);
    let mut face = String::new();
    let mut i: usize = 0;
    while i < entries.len()
        invariant
            i <= entries@.len(),
            entries@.len() == faces@.len(),
            names == lines_view(faces@),
            face@ == face_before(names, i as int),
            lines_view(lines@) == seq![first@] + entry_lines(entries@, names, i as nat),
        decreases entries@.len() - i,
    {
        let ghost before = lines_view(lines@);
        let current_face = faces[i].clone();
        assert(current_face@ == names[i as int]);
        if current_face != face {
            let mut opening = String::from_str("        // ");
            opening.append(current_face.as_str());
            lines.push(opening);
        }
        let ghost opened = lines_view(lines@);
        let entry = entries[i];
        let mut line = String::from_str(" (");
        line.append(write_decimal(entry.0).as_str());
        line.append(", ");
        line.append(write_decimal(entry.1).as_str());
        line.append("),");
        assert(line@ =~= entry_line(entry));
        lines.push(line);
        proof {
            if names[i as int] != face_before(names, i as int) {
                assert(opened =~= before.push(face_line(names[i as int])));
            } else {
                assert(opened =~= before);
            }
            assert(lines_view(lines@) =~= opened.push(entry_line(entry)));
            assert(lines_view(lines@) =~= seq![first@] + entry_lines(
                entries@,
                names,
                (i + 1) as nat,
            ));
        }
        face = current_face;
        i += 1;
    }
    let ghost body = lines_view(lines@);
    lines.push(String::from_str(last));
    assert(lines_view(lines@) =~= body.push(last@));
    assert(lines_view(lines@) =~= table_lines(first@, entries@, names, last@));
    lines
}

} // verus!
