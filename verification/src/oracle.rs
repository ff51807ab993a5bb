//! What the name of a file tells of its contents.
use vstd::prelude::*;

use crate::candidate;
use crate::png;
use crate::png::PngValidator;
use crate::text;

verus! {

/// The bytes that a file of this name begins with, as far as they are known.
pub open spec fn known_signature(name: Seq<char>) -> Seq<u8> {
    if text::has_ending(name, ".png"@) {
        // the signature, and the length and type of the first chunk
        seq![
            0x89u8, 0x50, 0x4E, 0x47, 0x0D, 0x0A, 0x1A, 0x0A,
            0x00, 0x00, 0x00, 0x0D, 0x49, 0x48, 0x44, 0x52,
        ]
    } else if text::has_ending(name, ".jpg"@) || text::has_ending(name, ".jpeg"@) {
        seq![0xFFu8, 0xD8, 0xFF]
    } else if text::has_ending(name, ".pdf"@) {
        seq![0x25u8, 0x50, 0x44, 0x46, 0x2D]
    } else if text::has_ending(name, ".gif"@) {
        seq![0x47u8, 0x49, 0x46, 0x38]
    } else if text::has_ending(name, ".zip"@) || text::has_ending(name, ".jar"@) {
        seq![0x50u8, 0x4B, 0x03, 0x04]
    } else if text::has_ending(name, ".gz"@) {
        seq![0x1Fu8, 0x8B]
    } else if text::has_ending(name, ".bz2"@) {
        seq![0x42u8, 0x5A, 0x68]
    } else if text::has_ending(name, ".7z"@) {
        seq![0x37u8, 0x7A, 0xBC, 0xAF, 0x27, 0x1C]
    } else if text::has_ending(name, ".mp3"@) {
        seq![0x49u8, 0x44, 0x33]
    } else {
        Seq::empty()
    }
}

/// The bytes that a file of this name ends with, as far as they are known.
pub open spec fn known_trailer(name: Seq<char>) -> Seq<u8> {
    if text::has_ending(name, ".png"@) {
        // the whole end chunk
        seq![0x00u8, 0x00, 0x00, 0x00, 0x49, 0x45, 0x4E, 0x44, 0xAE, 0x42, 0x60, 0x82]
    } else if text::has_ending(name, ".jpg"@) || text::has_ending(name, ".jpeg"@) {
        seq![0xFFu8, 0xD9]
    } else if text::has_ending(name, ".gif"@) {
        seq![0x3Bu8]
    } else {
        Seq::empty()
    }
}

/// The validator for the contents of a file of this name, before the first byte.
pub open spec fn validator_for(name: Seq<char>) -> Option<png::PngModel> {
    if text::has_ending(name, ".png"@) {
        Some(png::PngModel::start())
    } else {
        None
    }
}

/// The bytes that a file of this name must begin with; none if they are not known.
pub fn known_signature_for(filename: &str) -> (sig: Vec<u8>)
    ensures
        sig@ == known_signature(filename@),
{
    let sig: Vec<u8> = if text::ends_with_ignoring_case(filename, ".png") {
        vec![
            0x89u8, 0x50, 0x4E, 0x47, 0x0D, 0x0A, 0x1A, 0x0A,
            0x00, 0x00, 0x00, 0x0D, 0x49, 0x48, 0x44, 0x52,
        ]
    } else if text::ends_with_ignoring_case(filename, ".jpg") || text::ends_with_ignoring_case(
        filename,
        ".jpeg",
    ) {
        vec![0xFFu8, 0xD8, 0xFF]
    } else if text::ends_with_ignoring_case(filename, ".pdf") {
        vec![0x25u8, 0x50, 0x44, 0x46, 0x2D]
    } else if text::ends_with_ignoring_case(filename, ".gif") {
        vec![0x47u8, 0x49, 0x46, 0x38]
    } else if text::ends_with_ignoring_case(filename, ".zip") || text::ends_with_ignoring_case(
        filename,
        ".jar",
    ) {
        vec![0x50u8, 0x4B, 0x03, 0x04]
    } else if text::ends_with_ignoring_case(filename, ".gz") {
        vec![0x1Fu8, 0x8B]
    } else if text::ends_with_ignoring_case(filename, ".bz2") {
        vec![0x42u8, 0x5A, 0x68]
    } else if text::ends_with_ignoring_case(filename, ".7z") {
        vec![0x37u8, 0x7A, 0xBC, 0xAF, 0x27, 0x1C]
    } else if text::ends_with_ignoring_case(filename, ".mp3") {
        vec![0x49u8, 0x44, 0x33]
    } else {
        Vec::new()
    };
    assert(sig@ =~= known_signature(filename@));
    sig
}

/// The bytes that a file of this name must end with; none if they are not known.
pub fn known_trailer_for(filename: &str) -> (trailer: Vec<u8>)
    ensures
        trailer@ == known_trailer(filename@),
{
    let trailer: Vec<u8> = if text::ends_with_ignoring_case(filename, ".png") {
        vec![0x00u8, 0x00, 0x00, 0x00, 0x49, 0x45, 0x4E, 0x44, 0xAE, 0x42, 0x60, 0x82]
    } else if text::ends_with_ignoring_case(filename, ".jpg") || text::ends_with_ignoring_case(
        filename,
        ".jpeg",
    ) {
        vec![0xFFu8, 0xD9]
    } else if text::ends_with_ignoring_case(filename, ".gif") {
        vec![0x3Bu8]
    } else {
        Vec::new()
    };
    assert(trailer@ =~= known_trailer(filename@));
    trailer
}

/// A validator for the contents of a file of this name, if there is one.
pub fn new_validator_for(filename: &str) -> (v: Option<PngValidator>)
    ensures
        candidate::validator_model(v) == validator_for(filename@),
        v matches Some(v) ==> v@.wf(),
{
    if text::ends_with_ignoring_case(filename, ".png") {
        Some(PngValidator::new())
    } else {
        None
    }
}

/// The name ends, whatever the case of its letters, with a dot and the given letters.
pub open spec fn is_a(name: Seq<char>, letters: Seq<char>) -> bool {
    text::ends_in(name, seq!['.'] + letters)
}

proof fn lemma_is_a(name: Seq<char>, ending: Seq<char>, letters: Seq<char>)
    requires
        ending =~= seq!['.'] + letters,
        forall|k: int| 0 <= k < letters.len() ==> !('A' <= #[trigger] letters[k] <= 'Z'),
    ensures
        text::has_ending(name, ending) <==> is_a(name, letters),
        is_a(name, letters) ==> name.len() > letters.len() && forall|k: int|
            0 <= k < letters.len() ==> text::lower(name[name.len() - letters.len() + k])
                == #[trigger] letters[k],
{
    assert forall|k: int| 0 <= k < ending.len() implies !(65 <= (#[trigger] ending[k] as int)
        <= 90) by {
        if k > 0 {
            assert(ending[k] == letters[k - 1]);
        }
    }
    text::law_case_makes_no_difference(name, ending);
    if is_a(name, letters) {
        assert forall|k: int| 0 <= k < letters.len() implies text::lower(
            name[name.len() - letters.len() + k],
        ) == #[trigger] letters[k] by {
            assert(text::lower(name[name.len() - ending.len() + (k + 1)]) == ending[k + 1]);
        }
    }
}

/// What a name tells: its endings and the bytes that such files begin and end with. The
/// first eight bytes of a PNG are followed by a header chunk of thirteen bytes, and its last
/// chunk is empty.
pub proof fn law_names_tell_contents(name: Seq<char>)
    ensures
        is_a(name, seq!['p', 'n', 'g']) ==> known_signature(name) == seq![
            0x89u8, 'P' as u8, 'N' as u8, 'G' as u8, 0x0D, 0x0A, 0x1A, 0x0A, 0, 0, 0, 13, 'I' as u8,
            'H' as u8, 'D' as u8, 'R' as u8,
        ] && known_trailer(name) == seq![
            0u8, 0, 0, 0, 'I' as u8, 'E' as u8, 'N' as u8, 'D' as u8, 0xAE, 0x42, 0x60, 0x82,
        ] && validator_for(name) == Some(
            png::PngModel::start(),
        ),
        is_a(name, seq!['j', 'p', 'g']) || is_a(name, seq!['j', 'p', 'e', 'g']) ==> known_signature(
            name,
        ) == seq![0xFFu8, 0xD8, 0xFF] && known_trailer(name) == seq![0xFFu8, 0xD9],
        is_a(name, seq!['p', 'd', 'f']) ==> known_signature(name) == seq![
            '%' as u8, 'P' as u8, 'D' as u8, 'F' as u8, '-' as u8,
        ],
        is_a(name, seq!['g', 'i', 'f']) ==> known_signature(name) == seq![
            'G' as u8, 'I' as u8, 'F' as u8, '8' as u8,
        ] && known_trailer(name) == seq![';' as u8],
        is_a(name, seq!['z', 'i', 'p']) || is_a(name, seq!['j', 'a', 'r']) ==> known_signature(name)
            == seq!['P' as u8, 'K' as u8, 3, 4],
        is_a(name, seq!['g', 'z']) ==> known_signature(name) == seq![0x1Fu8, 0x8B],
        is_a(name, seq!['b', 'z', '2']) ==> known_signature(name) == seq![
            'B' as u8, 'Z' as u8, 'h' as u8,
        ],
        is_a(name, seq!['7', 'z']) ==> known_signature(name) == seq![
            '7' as u8, 'z' as u8, 0xBC, 0xAF, 0x27, 0x1C,
        ],
        is_a(name, seq!['m', 'p', '3']) ==> known_signature(name) == seq![
            'I' as u8, 'D' as u8, '3' as u8,
        ],
{
    lemma_endings();
    lemma_is_a(name, ".png"@, seq!['p', 'n', 'g']);
    lemma_is_a(name, ".jpg"@, seq!['j', 'p', 'g']);
    lemma_is_a(name, ".jpeg"@, seq!['j', 'p', 'e', 'g']);
    lemma_is_a(name, ".pdf"@, seq!['p', 'd', 'f']);
    lemma_is_a(name, ".gif"@, seq!['g', 'i', 'f']);
    lemma_is_a(name, ".zip"@, seq!['z', 'i', 'p']);
    lemma_is_a(name, ".jar"@, seq!['j', 'a', 'r']);
    lemma_is_a(name, ".gz"@, seq!['g', 'z']);
    lemma_is_a(name, ".bz2"@, seq!['b', 'z', '2']);
    lemma_is_a(name, ".7z"@, seq!['7', 'z']);
    lemma_is_a(name, ".mp3"@, seq!['m', 'p', '3']);
    assert(seq!['p', 'n', 'g'][0] == 'p' && seq!['p', 'n', 'g'][1] == 'n' && seq!['p', 'n', 'g'][2]
        == 'g');
    assert(seq!['j', 'p', 'g'][0] == 'j' && seq!['j', 'p', 'g'][1] == 'p' && seq!['j', 'p', 'g'][2]
        == 'g');
    assert(seq!['j', 'p', 'e', 'g'][2] == 'e' && seq!['j', 'p', 'e', 'g'][3] == 'g');
    assert(seq!['p', 'd', 'f'][1] == 'd' && seq!['p', 'd', 'f'][2] == 'f');
    assert(seq!['g', 'i', 'f'][1] == 'i' && seq!['g', 'i', 'f'][2] == 'f');
    assert(seq!['z', 'i', 'p'][2] == 'p');
    assert(seq!['j', 'a', 'r'][2] == 'r');
    assert(seq!['g', 'z'][0] == 'g' && seq!['g', 'z'][1] == 'z');
    assert(seq!['b', 'z', '2'][2] == '2');
    assert(seq!['7', 'z'][0] == '7' && seq!['7', 'z'][1] == 'z');
    assert(seq!['m', 'p', '3'][2] == '3');
    if is_a(name, seq!['p', 'n', 'g']) {
        assert(known_signature(name) =~= seq![
            0x89u8, 'P' as u8, 'N' as u8, 'G' as u8, 0x0D, 0x0A, 0x1A, 0x0A, 0, 0, 0, 13, 'I' as u8,
            'H' as u8, 'D' as u8, 'R' as u8,
        ]);
        assert(known_trailer(name) =~= seq![
            0u8, 0, 0, 0, 'I' as u8, 'E' as u8, 'N' as u8, 'D' as u8, 0xAE, 0x42, 0x60, 0x82,
        ]);
    }
}

proof fn lemma_endings()
    ensures
        ".png"@ =~= seq!['.'] + seq!['p', 'n', 'g'],
        ".jpg"@ =~= seq!['.'] + seq!['j', 'p', 'g'],
        ".jpeg"@ =~= seq!['.'] + seq!['j', 'p', 'e', 'g'],
        ".pdf"@ =~= seq!['.'] + seq!['p', 'd', 'f'],
        ".gif"@ =~= seq!['.'] + seq!['g', 'i', 'f'],
        ".zip"@ =~= seq!['.'] + seq!['z', 'i', 'p'],
        ".jar"@ =~= seq!['.'] + seq!['j', 'a', 'r'],
        ".gz"@ =~= seq!['.'] + seq!['g', 'z'],
        ".bz2"@ =~= seq!['.'] + seq!['b', 'z', '2'],
        ".7z"@ =~= seq!['.'] + seq!['7', 'z'],
        ".mp3"@ =~= seq!['.'] + seq!['m', 'p', '3'],
{
    reveal_strlit(".png");
    reveal_strlit(".jpg");
    reveal_strlit(".jpeg");
    reveal_strlit(".pdf");
    reveal_strlit(".gif");
    reveal_strlit(".zip");
    reveal_strlit(".jar");
    reveal_strlit(".gz");
    reveal_strlit(".bz2");
    reveal_strlit(".7z");
    reveal_strlit(".mp3");
}

/// The name ends with one of the endings that tell how a file begins.
pub open spec fn is_known(name: Seq<char>) -> bool {
    ||| is_a(name, seq!['p', 'n', 'g'])
    ||| is_a(name, seq!['j', 'p', 'g'])
    ||| is_a(name, seq!['j', 'p', 'e', 'g'])
    ||| is_a(name, seq!['p', 'd', 'f'])
    ||| is_a(name, seq!['g', 'i', 'f'])
    ||| is_a(name, seq!['z', 'i', 'p'])
    ||| is_a(name, seq!['j', 'a', 'r'])
    ||| is_a(name, seq!['g', 'z'])
    ||| is_a(name, seq!['b', 'z', '2'])
    ||| is_a(name, seq!['7', 'z'])
    ||| is_a(name, seq!['m', 'p', '3'])
}

/// Any other name tells nothing; only those of PNG, JPEG and GIF files tell how the contents
/// end, and only those of PNG files bring a validator.
pub proof fn law_other_names_tell_nothing(name: Seq<char>)
    ensures
        !is_known(name) ==> known_signature(name).len() == 0,
        !(is_a(name, seq!['p', 'n', 'g']) || is_a(name, seq!['j', 'p', 'g']) || is_a(
            name,
            seq!['j', 'p', 'e', 'g'],
        ) || is_a(name, seq!['g', 'i', 'f'])) ==> known_trailer(name).len() == 0,
        !is_a(name, seq!['p', 'n', 'g']) ==> validator_for(name) is None,
{
    lemma_endings();
    lemma_is_a(name, ".png"@, seq!['p', 'n', 'g']);
    lemma_is_a(name, ".jpg"@, seq!['j', 'p', 'g']);
    lemma_is_a(name, ".jpeg"@, seq!['j', 'p', 'e', 'g']);
    lemma_is_a(name, ".pdf"@, seq!['p', 'd', 'f']);
    lemma_is_a(name, ".gif"@, seq!['g', 'i', 'f']);
    lemma_is_a(name, ".zip"@, seq!['z', 'i', 'p']);
    lemma_is_a(name, ".jar"@, seq!['j', 'a', 'r']);
    lemma_is_a(name, ".gz"@, seq!['g', 'z']);
    lemma_is_a(name, ".bz2"@, seq!['b', 'z', '2']);
    lemma_is_a(name, ".7z"@, seq!['7', 'z']);
    lemma_is_a(name, ".mp3"@, seq!['m', 'p', '3']);
}

} // verus!
