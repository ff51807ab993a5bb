//! The pieces of a self-test: random text to pack, and how a recovery turned out.
use vstd::prelude::*;

use crate::corrupt::{CR, LF};
use crate::positions;
use crate::recover;
use crate::recover::{RecoverError, RecoveryResult};
use crate::zip_util;

verus! {

/// The number of characters that random text is made of.
pub const ALPHABET_LEN: usize = 77;

/// The characters that random text is made of, in ASCII: letters, digits, a space,
/// punctuation, and the line feed, the carriage return and the tab.
pub open spec fn alphabet() -> Seq<u8> {
    Seq::new(26, |i: int| (0x61 + i) as u8) + Seq::new(26, |i: int| (0x41 + i) as u8) + Seq::new(
        10,
        |i: int| (0x30 + i) as u8,
    ) + seq![
        0x20u8, 0x2E, 0x2C, 0x21, 0x3F, 0x3B, 0x3A, 0x27, 0x22, 0x28, 0x29, 0x2D, 0x0A, 0x0D, 0x09,
    ]
}

/// Random text is made of all small and capital letters, all digits, the space, twelve marks
/// and the line feed, the carriage return and the tab, each once: these and nothing else.
pub proof fn law_alphabet(b: u8)
    ensures
        alphabet().len() == 77,
        alphabet().no_duplicates(),
        alphabet().contains(b) <==> ('a' as u8 <= b <= 'z' as u8 || 'A' as u8 <= b <= 'Z' as u8
            || '0' as u8 <= b <= '9' as u8 || b == ' ' as u8 || b == '.' as u8 || b == ',' as u8
            || b == '!' as u8 || b == '?' as u8 || b == ';' as u8 || b == ':' as u8 || b
            == '\'' as u8 || b == '"' as u8 || b == '(' as u8 || b == ')' as u8 || b == '-' as u8
            || b == 0x0A || b == 0x0D || b == 0x09),
{
    let s = alphabet();
    let k: int = if 0x61 <= b <= 0x7A {
        b - 0x61
    } else if 0x41 <= b <= 0x5A {
        b - 0x41 + 26
    } else if 0x30 <= b <= 0x39 {
        b - 0x30 + 52
    } else if b == 0x20 {
        62
    } else if b == 0x2E {
        63
    } else if b == 0x2C {
        64
    } else if b == 0x21 {
        65
    } else if b == 0x3F {
        66
    } else if b == 0x3B {
        67
    } else if b == 0x3A {
        68
    } else if b == 0x27 {
        69
    } else if b == 0x22 {
        70
    } else if b == 0x28 {
        71
    } else if b == 0x29 {
        72
    } else if b == 0x2D {
        73
    } else if b == 0x0A {
        74
    } else if b == 0x0D {
        75
    } else if b == 0x09 {
        76
    } else {
        -1
    };
    if k >= 0 {
        assert(s[k] == b);
    }
}

/// `rand`'s generator of the running thread.
#[verifier::external_type_specification]
#[verifier::external_body]
pub struct ExThreadRng(rand::rngs::ThreadRng);

/// Calls `rand::Rng::gen_range` on the range from zero to `n`: the number drawn is left
/// to chance and lies in the range.
#[verifier::external_body]
fn draw_below(rng: &mut rand::rngs::ThreadRng, n: usize) -> (drawn: usize)
    requires
        n > 0,
    ensures
        drawn < n,
{
    rand::Rng::gen_range(rng, 0..n)
}

/// The character of index `i` among those that random text is made of.
pub fn alphabet_char(i: usize) -> (c: u8)
    requires
        i < ALPHABET_LEN,
    ensures
        c == alphabet()[i as int],
{
    if i < 26 {
        0x61 + i as u8
    } else if i < 52 {
        0x41 + (i - 26) as u8
    } else if i < 62 {
        0x30 + (i - 52) as u8
    } else {
        let rest: [u8; 15] = [
            0x20, 0x2E, 0x2C, 0x21, 0x3F, 0x3B, 0x3A, 0x27, 0x22, 0x28, 0x29, 0x2D, 0x0A, 0x0D, 0x09,
        ];
        rest[i - 62]
    }
}

/// Random text of `size` characters.
pub fn random_text(rng: &mut rand::rngs::ThreadRng, size: usize) -> (result: Vec<u8>)
    ensures
        result@.len() == size,
        forall|i: int| 0 <= i < size ==> alphabet().contains(#[trigger] result@[i]),
{
    let mut result: Vec<u8> = Vec::new();
    for k in 0..size
        invariant
            result@.len() == k,
            forall|i: int| 0 <= i < k ==> alphabet().contains(#[trigger] result@[i]),
    {
        let drawn: usize = draw_below(rng, ALPHABET_LEN);
        result.push(alphabet_char(drawn));
        assert(alphabet()[drawn as int] == result@[k as int]);
    }
    result
}

/// How many carriage returns have a line feed behind them.
pub fn count_natural_crlf(data: &[u8]) -> (count: usize)
    ensures
        count == zip_util::crlfs(data@).len(),
        count == positions::positions(
            data@.len(),
            |i: int| i + 1 < data@.len() && data@[i] == 0x0D && data@[i + 1] == 0x0A,
        ).len(),
{
    let mut count: usize = 0;
    let ghost hit = |i: int| zip_util::crlf_at(data@, i);
    for i in 0..data.len()
        invariant
            hit == (|i: int| zip_util::crlf_at(data@, i)),
            count <= i,
            count == positions::positions(i as nat, hit).len(),
    {
        if data.len() - i >= 2 && data[i] == CR && data[i + 1] == LF {
            count = count + 1;
        }
    }
    proof {
        lemma_same_places(
            data@.len(),
            hit,
            |i: int| i + 1 < data@.len() && data@[i] == 0x0D && data@[i + 1] == 0x0A,
        );
    }
    count
}

proof fn lemma_same_places(n: nat, a: spec_fn(int) -> bool, b: spec_fn(int) -> bool)
    requires
        forall|i: int| 0 <= i < n ==> #[trigger] a(i) == b(i),
    ensures
        positions::positions(n, a) == positions::positions(n, b),
    decreases n,
{
    if n > 0 {
        lemma_same_places((n - 1) as nat, a, b);
        assert(a(n - 1) == b(n - 1));
    }
}

/// How many of the first `n` bytes of `a` and `b` differ.
pub open spec fn differing(a: Seq<u8>, b: Seq<u8>, n: nat) -> nat
    decreases n,
{
    if n == 0 {
        0
    } else {
        differing(a, b, (n - 1) as nat) + (if a[n - 1] != b[n - 1] {
            1nat
        } else {
            0nat
        })
    }
}

/// How many bytes differ; bytes that only the longer of the two has are among them.
pub open spec fn diffs(a: Seq<u8>, b: Seq<u8>) -> nat {
    if a.len() < b.len() {
        differing(a, b, a.len()) + (b.len() - a.len()) as nat
    } else {
        differing(a, b, b.len()) + (a.len() - b.len()) as nat
    }
}

/// How many bytes differ; bytes that only the longer of the two has are among them.
pub fn count_diffs(a: &[u8], b: &[u8]) -> (count: usize)
    ensures
        count == diffs(a@, b@),
{
    let shorter: usize = if a.len() < b.len() {
        a.len()
    } else {
        b.len()
    };
    let mut count: usize = 0;
    for i in 0..shorter
        invariant
            shorter <= a@.len(),
            shorter <= b@.len(),
            count <= i,
            count == differing(a@, b@, i as nat),
    {
        if a[i] != b[i] {
            count = count + 1;
        }
    }
    if a.len() < b.len() {
        count + (b.len() - a.len())
    } else {
        count + (a.len() - b.len())
    }
}

/// The bytes that differ are counted: the places in the longer of the two where the other
/// has another byte or none.
pub proof fn law_every_difference_counts(a: Seq<u8>, b: Seq<u8>)
    ensures
        ({
            let n = if a.len() < b.len() {
                b.len()
            } else {
                a.len()
            };
            diffs(a, b) == positions::positions(
                n,
                |i: int| i >= a.len() || i >= b.len() || a[i] != b[i],
            ).len()
        }),
        diffs(a, b) == diffs(b, a),
{
    let n = if a.len() < b.len() {
        b.len()
    } else {
        a.len()
    };
    lemma_counted(a, b, n, |i: int| i >= a.len() || i >= b.len() || a[i] != b[i]);
    lemma_both_ways(
        a,
        b,
        if a.len() < b.len() {
            a.len()
        } else {
            b.len()
        },
    );
}

proof fn lemma_counted(a: Seq<u8>, b: Seq<u8>, n: nat, hit: spec_fn(int) -> bool)
    requires
        hit == (|i: int| i >= a.len() || i >= b.len() || a[i] != b[i]),
    ensures
        ({
            let shorter = if a.len() < b.len() {
                a.len()
            } else {
                b.len()
            };
            positions::positions(n, hit).len() == if n <= shorter {
                differing(a, b, n) as int
            } else {
                differing(a, b, shorter) + (n - shorter)
            }
        }),
    decreases n,
{
    if n > 0 {
        lemma_counted(a, b, (n - 1) as nat, hit);
    }
}

proof fn lemma_both_ways(a: Seq<u8>, b: Seq<u8>, n: nat)
    ensures
        differing(a, b, n) == differing(b, a, n),
    decreases n,
{
    if n > 0 {
        lemma_both_ways(a, b, (n - 1) as nat);
    }
}

/// Nothing differs just if the bytes are the same.
pub proof fn law_no_diffs_is_equal(a: Seq<u8>, b: Seq<u8>)
    ensures
        diffs(a, b) == 0 <==> a == b,
{
    let n = if a.len() < b.len() {
        a.len()
    } else {
        b.len()
    };
    lemma_differing(a, b, n);
    if diffs(a, b) == 0 {
        assert(a =~= b);
    }
}

proof fn lemma_differing(a: Seq<u8>, b: Seq<u8>, n: nat)
    ensures
        differing(a, b, n) == 0 <==> forall|i: int| 0 <= i < n ==> a[i] == b[i],
    decreases n,
{
    if n > 0 {
        lemma_differing(a, b, (n - 1) as nat);
        if differing(a, b, n) == 0 {
            assert forall|i: int| 0 <= i < n implies a[i] == b[i] by {}
        }
    }
}

/// Whether the data begins with a local header and every entry that can be followed
/// from it has the expected checksum.
pub fn validate_partial(data: &[u8]) -> (r: bool)
    ensures
        r == zip_util::valid_zip(data@),
{
    recover::validate_as_zip(data)
}

/// How one round of damage and recovery turned out.
#[derive(Clone, Copy, Debug, PartialEq, Eq, Structural)]
pub enum RunOutcome {
    /// The archive came back byte for byte.
    Perfect,
    /// Another archive came back.
    Valid,
    /// What came back is no archive.
    Invalid,
    /// Nothing came back.
    Failed,
}

/// How a recovery of `original` turned out that gave `result`.
pub open spec fn outcome_of(
    original: Seq<u8>,
    result: Result<recover::ResultModel, RecoverError>,
) -> RunOutcome {
    match result {
        Err(_) => RunOutcome::Failed,
        Ok(r) => if r.data == original {
            RunOutcome::Perfect
        } else if zip_util::valid_zip(r.data) {
            RunOutcome::Valid
        } else {
            RunOutcome::Invalid
        },
    }
}

/// A run has failed just if nothing came back, is perfect just if the archive came back byte
/// for byte, and otherwise is valid just if what came back is an archive.
pub proof fn law_run_is_judged_by_what_came_back(
    original: Seq<u8>,
    result: Result<recover::ResultModel, RecoverError>,
)
    ensures
        outcome_of(original, result) is Failed <==> result is Err,
        outcome_of(original, result) is Perfect <==> (result matches Ok(r) && r.data.len()
            == original.len() && forall|i: int|
            0 <= i < original.len() ==> #[trigger] r.data[i] == original[i]),
        outcome_of(original, result) is Valid <==> (result matches Ok(r) && r.data != original
            && zip_util::valid_zip(r.data)),
        outcome_of(original, result) is Invalid <==> (result matches Ok(r) && r.data != original
            && !zip_util::valid_zip(r.data)),
{
    if let Ok(r) = result {
        if r.data.len() == original.len() && forall|i: int|
            0 <= i < original.len() ==> #[trigger] r.data[i] == original[i] {
            assert(r.data =~= original);
        }
    }
}

/// How a recovery of `original` turned out that gave `result`.
pub fn judge_run(original: &[u8], result: &Result<RecoveryResult, RecoverError>) -> (r: RunOutcome)
    ensures
        r == outcome_of(original@, recover::verdict(*result)),
{
    match result {
        Err(_) => RunOutcome::Failed,
        Ok(recovered) => {
            let diffs: usize = count_diffs(recovered.data.as_slice(), original);
            proof {
                law_no_diffs_is_equal(recovered.data@, original@);
            }
            if diffs == 0 {
                RunOutcome::Perfect
            } else if validate_partial(recovered.data.as_slice()) {
                RunOutcome::Valid
            } else {
                RunOutcome::Invalid
            }
        },
    }
}

/// The rounds of a stress test: how many gave an archive, how many of these byte for
/// byte, and how many did not.
#[derive(Clone, Copy, Debug, PartialEq, Eq, Structural)]
pub struct Tally {
    pub ok: usize,
    pub perfect: usize,
    pub fail: usize,
}

impl Tally {
    /// The rounds can be counted.
    pub open spec fn wf(self) -> bool {
        self.perfect <= self.ok && self.ok + self.fail <= usize::MAX
    }

    /// The tally with one more round of the given outcome.
    pub open spec fn with(self, outcome: RunOutcome) -> Tally {
        match outcome {
            RunOutcome::Perfect => Tally {
                ok: (self.ok + 1) as usize,
                perfect: (self.perfect + 1) as usize,
                ..self
            },
            RunOutcome::Valid => Tally { ok: (self.ok + 1) as usize, ..self },
            _ => Tally { fail: (self.fail + 1) as usize, ..self },
        }
    }

    /// No round yet.
    pub fn new() -> (t: Tally)
        ensures
            t == (Tally { ok: 0, perfect: 0, fail: 0 }),
            t.wf(),
    {
        Tally { ok: 0, perfect: 0, fail: 0 }
    }

    /// Counts one more round.
    pub fn note(&mut self, outcome: RunOutcome)
        requires
            old(self).wf(),
            old(self).ok + old(self).fail < usize::MAX,
        ensures
            *final(self) == old(self).with(outcome),
            final(self).wf(),
            final(self).ok + final(self).fail == old(self).ok + old(self).fail + 1,
            final(self).ok - old(self).ok == if outcome is Perfect || outcome is Valid {
                1int
            } else {
                0int
            },
            final(self).perfect - old(self).perfect == if outcome is Perfect {
                1int
            } else {
                0int
            },
            final(self).fail - old(self).fail == if outcome is Invalid || outcome is Failed {
                1int
            } else {
                0int
            },
    {
        match outcome {
            RunOutcome::Perfect => {
                self.ok = self.ok + 1;
                self.perfect = self.perfect + 1;
            },
            RunOutcome::Valid => {
                self.ok = self.ok + 1;
            },
            _ => {
                self.fail = self.fail + 1;
            },
        }
    }

    /// Whether the stress test was passed: no round has failed.
    pub fn passed(&self) -> (r: bool)
        ensures
            r == (self.fail == 0),
    {
        self.fail == 0
    }
}

} // verus!
