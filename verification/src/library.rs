//! The user's patch library: names, files and what a dropped file is.

use crate::text::{
    alphanumeric, chars_of, is_space, law_trimming_cuts_blanks_alone, nat_text, nat_to_string,
    same_chars, string_of, texts, trim, trimmed, unicode_alphanumeric,
};
use vstd::prelude::*;

verus! {

// ---- names ----------------------------------------------------------------------------------

/// The name of a patch that was given none.
pub const UNNAMED: &'static str = "my_patch";

/// A character that may stand in the name of a patch.
pub open spec fn name_char(c: char) -> bool {
    unicode_alphanumeric(c) || c == '-' || c == '_'
}

/// What becomes of a character in the name of a patch.
pub open spec fn cleaned(c: char) -> char {
    if name_char(c) {
        c
    } else {
        '_'
    }
}

/// The name under which a patch is saved: without blanks at its ends, and with
/// `_` for what may not stand in a name.
pub open spec fn saved_name(s: Seq<char>) -> Seq<char> {
    let t = trimmed(s).map_values(|c: char| cleaned(c));
    if t.len() == 0 {
        UNNAMED@
    } else {
        t
    }
}

/// The name under which a patch is saved. It is never empty, and it cannot lead
/// out of the library's folder.
pub fn name_to_save(s: &str) -> (r: String)
    ensures
        r@ == saved_name(s@),
        r@.len() > 0,
        forall|i: int|
            0 <= i < r@.len() ==> #[trigger] r@[i] != '/' && r@[i] != '\\' && r@[i] != '.',
{
    let all = chars_of(s);
    let t = trim(all.as_slice());
    let mut v: Vec<char> = Vec::new();
    let mut i: usize = 0;
    while i < t.len()
        invariant
            i <= t@.len(),
            v@ == t@.map_values(|c: char| cleaned(c)).take(i as int),
            forall|k: int|
                0 <= k < v@.len() ==> #[trigger] v@[k] != '/' && v@[k] != '\\' && v@[k] != '.',
        decreases t@.len() - i,
    {
        let c: char = t[i];
        let ok: bool = alphanumeric(c) || c == '-' || c == '_';
        v.push(
            if ok {
                c
            } else {
                '_'
            },
        );
        i = i + 1;
        assert(v@ =~= t@.map_values(|c: char| cleaned(c)).take(i as int));
    }
    assert(v@ =~= t@.map_values(|c: char| cleaned(c)));
    if v.len() == 0 {
        proof {
            reveal_strlit("my_patch");
        }
        UNNAMED.to_owned()
    } else {
        string_of(v.as_slice())
    }
}

// ---- files ----------------------------------------------------------------------------------

/// The file that a patch is saved to.
pub open spec fn patch_file_name(name: Seq<char>) -> Seq<char> {
    name + ".genome.txt"@
}

pub fn patch_file(name: &str) -> (r: String)
    ensures
        r@ == patch_file_name(name@),
{
    let mut r = name.to_owned();
    r.append(".genome.txt");
    r
}

/// The file that a patch's sound is saved to.
pub open spec fn sound_file_name(name: Seq<char>) -> Seq<char> {
    name + ".wav"@
}

pub fn sound_file(name: &str) -> (r: String)
    ensures
        r@ == sound_file_name(name@),
{
    let mut r = name.to_owned();
    r.append(".wav");
    r
}

/// The file that a loop is saved to.
pub open spec fn loop_file_name(what: Seq<char>, bpm: u32, key: Seq<char>) -> Seq<char> {
    "loop_"@ + what + "_"@ + nat_text(bpm as nat) + "bpm_"@ + key + ".wav"@
}

pub fn loop_file(what: &str, bpm: u32, key: &str) -> (r: String)
    ensures
        r@ == loop_file_name(what@, bpm, key@),
{
    let mut r = "loop_".to_owned();
    let n = nat_to_string(bpm);
    r.append(what);
    r.append("_");
    r.append(n.as_str());
    r.append("bpm_");
    r.append(key);
    r.append(".wav");
    r
}

/// `s` ends in `suffix`.
pub open spec fn ends_in(s: Seq<char>, suffix: Seq<char>) -> bool {
    s.len() >= suffix.len() && s.skip(s.len() - suffix.len()) == suffix
}

/// A file's name without its endings of `.genome`.
pub open spec fn label_of(stem: Seq<char>) -> Seq<char>
    decreases stem.len(),
{
    if ends_in(stem, ".genome"@) && ".genome"@.len() > 0 {
        label_of(stem.take(stem.len() - ".genome"@.len()))
    } else {
        stem
    }
}

/// The name that a patch file is listed under: its stem without its endings of
/// `.genome`.
pub fn patch_label(stem: &str) -> (r: String)
    ensures
        r@ == label_of(stem@),
{
    let all = chars_of(stem);
    let end = chars_of(".genome");
    let n: usize = end.len();
    let mut k: usize = all.len();
    proof {
        reveal_strlit(".genome");
        assert(all@.take(k as int) =~= all@);
    }
    while k >= n && same_chars(
        vstd::slice::slice_subrange(all.as_slice(), k - n, k),
        end.as_slice(),
    )
        invariant
            k <= all@.len(),
            n == end@.len(),
            n > 0,
            end@ == ".genome"@,
            label_of(stem@) == label_of(all@.take(k as int)),
        decreases k,
    {
        proof {
            let s = all@.take(k as int);
            assert(s.skip(s.len() - n) =~= all@.subrange(k - n, k as int));
            assert(s.take(s.len() - n) =~= all@.take(k - n));
        }
        k = k - n;
    }
    proof {
        let s = all@.take(k as int);
        if ends_in(s, ".genome"@) {
            assert(s.skip(s.len() - n) =~= all@.subrange(k - n, k as int));
        }
    }
    string_of(vstd::slice::slice_subrange(all.as_slice(), 0, k))
}

/// A patch is listed under the name that it was saved under.
pub proof fn law_saved_patch_is_listed(name: Seq<char>)
    requires
        !ends_in(name, ".genome"@),
    ensures
        label_of(name + ".genome"@) == name,
{
    reveal_strlit(".genome");
    let s = name + ".genome"@;
    assert(s.skip(s.len() - ".genome"@.len()) =~= ".genome"@);
    assert(s.take(s.len() - ".genome"@.len()) =~= name);
    assert(label_of(name) == name);
}

/// The first place of a name in a list, at or after `k`.
pub open spec fn place_from(names: Seq<Seq<char>>, name: Seq<char>, k: int) -> Option<int>
    decreases names.len() - k,
{
    if k < 0 || k >= names.len() {
        None
    } else if names[k] == name {
        Some(k)
    } else {
        place_from(names, name, k + 1)
    }
}

/// Where a name stands in a list.
pub fn place_of(names: &[String], name: &str) -> (r: Option<usize>)
    ensures
        match r {
            Some(k) => place_from(texts(names@), name@, 0) == Some(k as int) && k < names@.len(),
            None => place_from(texts(names@), name@, 0) is None,
        },
{
    let want = chars_of(name);
    let mut k: usize = 0;
    while k < names.len()
        invariant
            k <= names@.len(),
            want@ == name@,
            place_from(texts(names@), name@, 0) == place_from(texts(names@), name@, k as int),
        decreases names@.len() - k,
    {
        let have = chars_of(names[k].as_str());
        assert(texts(names@)[k as int] == have@);
        if same_chars(have.as_slice(), want.as_slice()) {
            return Some(k);
        }
        k = k + 1;
    }
    None
}

// ---- dropped files --------------------------------------------------------------------------

/// What a character is in lower case, among the ASCII ones.
pub open spec fn lower(c: char) -> char {
    if 'A' <= c <= 'Z' {
        (c as u32 + 32) as char
    } else {
        c
    }
}

/// The ending of a MIDI file.
pub open spec fn is_midi(ext: Seq<char>) -> bool {
    let e = ext.map_values(|c: char| lower(c));
    e == "mid"@ || e == "midi"@
}

/// Whether a file with that ending is taken as a groove; others are taken as a
/// sound to clone.
pub fn is_groove_file(ext: &str) -> (r: bool)
    ensures
        r == is_midi(ext@),
{
    let all = chars_of(ext);
    let mut v: Vec<char> = Vec::new();
    let mut i: usize = 0;
    while i < all.len()
        invariant
            i <= all@.len(),
            v@ == all@.map_values(|c: char| lower(c)).take(i as int),
        decreases all@.len() - i,
    {
        let c: char = all[i];
        let d: char = if 'A' <= c && c <= 'Z' {
            (c as u8 + 32) as char
        } else {
            c
        };
        v.push(d);
        i = i + 1;
        assert(v@ =~= all@.map_values(|c: char| lower(c)).take(i as int));
    }
    assert(v@ =~= all@.map_values(|c: char| lower(c)));
    let short = chars_of("mid");
    let long = chars_of("midi");
    same_chars(v.as_slice(), short.as_slice()) || same_chars(v.as_slice(), long.as_slice())
}

/// A name loses the blanks at its ends and keeps its length otherwise: letters, digits, `-`
/// and `_` stay where they are, and anything else becomes `_`. A blank name becomes
/// "my_patch".
pub proof fn law_names_are_cleaned_letter_by_letter(s: Seq<char>, i: int)
    requires
        0 <= i < trimmed(s).len(),
    ensures
        saved_name(s).len() == trimmed(s).len(),
        unicode_alphanumeric(trimmed(s)[i]) || trimmed(s)[i] == '-' || trimmed(s)[i] == '_'
            ==> saved_name(s)[i] == trimmed(s)[i],
        !(unicode_alphanumeric(trimmed(s)[i]) || trimmed(s)[i] == '-' || trimmed(s)[i] == '_')
            ==> saved_name(s)[i] == '_',
{
}

/// A name of blanks alone, or of nothing, is "my_patch".
pub proof fn law_blank_names_are_replaced(s: Seq<char>)
    requires
        forall|i: int| 0 <= i < s.len() ==> is_space(#[trigger] s[i]),
    ensures
        saved_name(s) == "my_patch"@,
{
    let cut = law_trimming_cuts_blanks_alone(s);
    if cut.0 < cut.1 {
        assert(is_space(s[cut.0]));
    }
}

/// A patch and its sound stand next to each other under the patch's name, and two patches
/// share a file only where they share their name.
pub proof fn law_files_are_named_after_their_patch(a: Seq<char>, b: Seq<char>)
    ensures
        patch_file_name(a).take(a.len() as int) == a,
        patch_file_name(a).skip(a.len() as int) == ".genome.txt"@,
        sound_file_name(a).take(a.len() as int) == a,
        sound_file_name(a).skip(a.len() as int) == ".wav"@,
        patch_file_name(a) == patch_file_name(b) ==> a == b,
        sound_file_name(a) == sound_file_name(b) ==> a == b,
{
    assert(patch_file_name(a).take(a.len() as int) =~= a);
    assert(patch_file_name(b).take(b.len() as int) =~= b);
    assert(sound_file_name(a).take(a.len() as int) =~= a);
    assert(sound_file_name(b).take(b.len() as int) =~= b);
    assert(patch_file_name(a).skip(a.len() as int) =~= ".genome.txt"@);
    assert(sound_file_name(a).skip(a.len() as int) =~= ".wav"@);
    assert(patch_file_name(a).len() == a.len() + ".genome.txt"@.len());
    assert(patch_file_name(b).len() == b.len() + ".genome.txt"@.len());
    assert(sound_file_name(a).len() == a.len() + ".wav"@.len());
    assert(sound_file_name(b).len() == b.len() + ".wav"@.len());
}

/// A label is what is left of a stem when all its endings of `.genome` are gone: one more of
/// them changes nothing, none is left, and a stem without one is its own label.
pub proof fn law_labels_have_no_ending(stem: Seq<char>)
    ensures
        label_of(stem + ".genome"@) == label_of(stem),
        !ends_in(label_of(stem), ".genome"@),
        !ends_in(stem, ".genome"@) ==> label_of(stem) == stem,
        label_of(stem) == stem.take(label_of(stem).len() as int),
        label_of(stem).len() <= stem.len(),
    decreases stem.len(),
{
    reveal_strlit(".genome");
    let s = stem + ".genome"@;
    assert(s.skip(s.len() - ".genome"@.len()) =~= ".genome"@);
    assert(s.take(s.len() - ".genome"@.len()) =~= stem);
    assert(stem.take(stem.len() as int) =~= stem);
    if ends_in(stem, ".genome"@) {
        let t = stem.take(stem.len() - ".genome"@.len());
        law_labels_have_no_ending(t);
        assert(t.take(label_of(t).len() as int) =~= stem.take(label_of(t).len() as int));
    }
}

/// A name is found where it first stands, and is not found only where it stands nowhere.
pub proof fn law_names_are_found_where_they_first_stand(
    names: Seq<Seq<char>>,
    name: Seq<char>,
    from: int,
    k: int,
)
    requires
        0 <= from <= k < names.len(),
    ensures
        match place_from(names, name, from) {
            Some(i) => from <= i < names.len() && names[i] == name && (k < i ==> names[k] != name),
            None => names[k] != name,
        },
    decreases names.len() - from,
{
    if names[from] != name {
        if from < k {
            law_names_are_found_where_they_first_stand(names, name, from + 1, k);
        } else if from + 1 < names.len() {
            law_names_are_found_where_they_first_stand(names, name, from + 1, from + 1);
        }
    }
}

/// The endings of a MIDI file are `mid` and `midi`, in upper or lower case or both.
pub proof fn law_midi_files_are_told_by_their_ending(ext: Seq<char>)
    ensures
        is_midi(ext) <==> {
            &&& ext.len() == 3 || ext.len() == 4 && (ext[3] == 'i' || ext[3] == 'I')
            &&& ext[0] == 'm' || ext[0] == 'M'
            &&& ext[1] == 'i' || ext[1] == 'I'
            &&& ext[2] == 'd' || ext[2] == 'D'
        },
{
    reveal_strlit("mid");
    reveal_strlit("midi");
    let e = ext.map_values(|c: char| lower(c));
    if is_midi(ext) {
        assert(e[0] == 'm' && e[1] == 'i' && e[2] == 'd');
        if e.len() == 4 {
            assert(e[3] == 'i');
        }
    }
    if ext.len() == 3 && (ext[0] == 'm' || ext[0] == 'M') && (ext[1] == 'i' || ext[1] == 'I') && (ext[2]
        == 'd' || ext[2] == 'D') {
        assert(e =~= "mid"@);
    }
    if ext.len() == 4 && (ext[0] == 'm' || ext[0] == 'M') && (ext[1] == 'i' || ext[1] == 'I') && (ext[2]
        == 'd' || ext[2] == 'D') && (ext[3] == 'i' || ext[3] == 'I') {
        assert(e =~= "midi"@);
    }
}

} // verus!
