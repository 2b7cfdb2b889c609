//! The questions that the desk answers about a text, and the answers.
use crate::compare;
use crate::repeats;
use crate::symbols;
use crate::text;
use vstd::prelude::*;

verus! {

/// A text to look through.
pub struct TextRequest {
    pub text: String,
}

/// A phrase that occurs more than once, and how often it does.
pub struct RepeatEntry {
    pub phrase: String,
    pub count: usize,
}

/// The repeated phrases of a text.
pub struct RepeatsResponse {
    pub ok: bool,
    pub repeats: Vec<RepeatEntry>,
}

/// A word with anomalies: as it stands, in HTML with the anomalies in spans, and how many they are.
pub struct AnomalyEntry {
    pub word: String,
    pub highlighted: String,
    pub count: usize,
}

/// The words of a text that have anomalies.
pub struct SymbolsResponse {
    pub ok: bool,
    pub anomalies: Vec<AnomalyEntry>,
}

/// Two texts to compare.
pub struct CompareRequest {
    pub text_a: String,
    pub text_b: String,
}

/// How alike two texts are, and how different, in percent.
pub struct CompareResponse {
    pub ok: bool,
    pub similarity: u32,
    pub uniqueness: u32,
}

/// Answers which phrases a text repeats.
pub fn repeats_handler(req: &TextRequest) -> (r: RepeatsResponse)
    ensures
        r.ok,
        repeats::is_repeats(repeats::phrase_words(req.text@), r.repeats@),
{
    RepeatsResponse { ok: true, repeats: repeats::text_repeats(req.text.as_str()) }
}

/// Answers which words of a text mix alphabets or hold unusual symbols.
pub fn symbols_handler(req: &TextRequest) -> (r: SymbolsResponse)
    ensures
        r.ok,
        symbols::contents(r.anomalies@) == symbols::text_anomalies(req.text@),
{
    SymbolsResponse { ok: true, anomalies: symbols::scan_text(req.text.as_str()) }
}

/// Answers how alike two texts are, regardless of case.
pub fn compare_handler(req: &CompareRequest) -> (r: CompareResponse)
    ensures
        r.ok,
        r.similarity == compare::similarity(
            text::lowercase(req.text_a@),
            text::lowercase(req.text_b@),
        ),
        r.uniqueness == 100 - r.similarity,
{
    let score: u32 = compare::compare_texts(
        req.text_a.to_lowercase().as_str(),
        req.text_b.to_lowercase().as_str(),
    );
    CompareResponse { ok: true, similarity: score, uniqueness: 100 - score }
}

} // verus!
