//! Nucleotide and peptide level operations: reverse complement, codon
//! translation and truncation of a peptide at its first stop symbol.
use vstd::prelude::*;
use vstd::slice::slice_subrange;
use vstd::string::*;

verus! {

/// The IUPAC complement of one nucleotide byte. Upper and lower case are kept
/// apart (`t` gives `a`); a byte outside the IUPAC alphabet is its own complement.
pub open spec fn complement_base(b: u8) -> u8 {
    let u: u8 = if 97 <= b <= 122 { (b - 32) as u8 } else { b };
    let c: u8 = if u == 65 { 84u8 }       // A -> T
        else if u == 84 { 65u8 }          // T -> A
        else if u == 67 { 71u8 }          // C -> G
        else if u == 71 { 67u8 }          // G -> C
        else if u == 89 { 82u8 }          // Y -> R
        else if u == 82 { 89u8 }          // R -> Y
        else if u == 75 { 77u8 }          // K -> M
        else if u == 77 { 75u8 }          // M -> K
        else if u == 68 { 72u8 }          // D -> H
        else if u == 72 { 68u8 }          // H -> D
        else if u == 86 { 66u8 }          // V -> B
        else if u == 66 { 86u8 }          // B -> V
        else { u };                       // W, S, N and the rest stay
    let in_alphabet = u == 65 || u == 84 || u == 67 || u == 71 || u == 89 || u == 82 || u == 75
        || u == 77 || u == 68 || u == 72 || u == 86 || u == 66 || u == 87 || u == 83 || u == 78;
    if !in_alphabet {
        b
    } else if b == u {
        c
    } else {
        (c + 32) as u8
    }
}

/// The reverse complement of a nucleotide string.
pub open spec fn reverse_complement(s: Seq<u8>) -> Seq<u8> {
    Seq::new(s.len(), |i: int| complement_base(s[s.len() - 1 - i]))
}

/// The peptide that the standard genetic code gives for a nucleotide string:
/// one symbol per complete codon, `*` for a stop codon, `X` for a codon that is
/// not made of `ACGTU` (either case).
pub uninterp spec fn peptide_of(s: Seq<u8>) -> Seq<char>;

/// `q` is `p` cut before its first stop symbol `*` (all of `p` if it has none).
pub open spec fn cut_at_stop(p: Seq<char>, q: Seq<char>) -> bool {
    &&& q.len() <= p.len()
    &&& q == p.subrange(0, q.len() as int)
    &&& forall|i: int| 0 <= i < q.len() ==> q[i] != '*'
    &&& (q.len() == p.len() || p[q.len() as int] == '*')
}

/// Relies on bio::alphabets::dna::revcomp: the bytes in reverse order, each
/// mapped through bio's IUPAC complement table.
#[verifier::external_body]
fn revcomp_bytes(b: &[u8]) -> (r: Vec<u8>)
    ensures
        r@ == reverse_complement(b@),
{
    bio::alphabets::dna::revcomp(b)
}

/// Relies on protein_translate::translate: one symbol for each complete codon
/// (a trailing partial codon is dropped).
#[verifier::external_body]
fn translate_codons(b: &[u8]) -> (r: String)
    ensures
        r@ == peptide_of(b@),
        r@.len() == b@.len() / 3,
{
    protein_translate::translate(b)
}

/// The part of a peptide before its first stop symbol.
pub fn truncate_at_stop(p: &str) -> (r: String)
    ensures
        cut_at_stop(p@, r@),
{
    let n = p.unicode_len();
    let mut k: usize = 0;
    while k < n && p.get_char(k) != '*'
        invariant
            n == p@.len(),
            k <= n,
            forall|i: int| 0 <= i < k ==> p@[i] != '*',
        decreases n - k,
    {
        k = k + 1;
    }
    let r = p.substring_char(0, k).to_owned();
    r
}

/// The raw peptide of the window `[from, to)` of a nucleotide string, read on
/// the given strand: reverse-complemented first when `reverse` holds.
pub fn window_peptide(seq: &[u8], from: usize, to: usize, reverse: bool) -> (r: String)
    requires
        from <= to <= seq@.len(),
    ensures
        !reverse ==> r@ == peptide_of(seq@.subrange(from as int, to as int)),
        reverse ==> r@ == peptide_of(reverse_complement(seq@.subrange(from as int, to as int))),
{
    let window = slice_subrange(seq, from, to);
    if reverse {
        let rc = revcomp_bytes(window);
        translate_codons(rc.as_slice())
    } else {
        translate_codons(window)
    }
}

} // verus!
