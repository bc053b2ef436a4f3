//! Which passwords are accepted for a new archive.
//!
//! Three rules, all of which must hold:
//! 1. at least 12 characters;
//! 2. an estimated strength of at least 3 out of 4. The estimate decides, rather
//!    than rules on classes of characters;
//! 3. a confirmation that is exactly the same.

use crate::crypto::Password;
use crate::strength::Estimated;
use crate::text;
use crate::text::push_decimal;
use vstd::prelude::*;

verus! {

/// Minimum length, in characters.
pub const MIN_LENGTH: usize = 12;

/// Minimum score, out of 4.
pub const REQUIRED_SCORE: u8 = 3;

/// What an estimate advises.
#[derive(Debug)]
pub struct StrengthFeedback {
    pub warning: Option<String>,
    pub suggestions: Vec<String>,
}

/// How strong a password is estimated to be.
#[derive(Debug)]
pub struct StrengthEstimate {
    /// From 0 (trivial) to 4 (very strong).
    pub score: u8,
    pub feedback: Option<StrengthFeedback>,
}

impl StrengthEstimate {
    /// What every estimate of `text` meets: a score of at most 4, which is 0 for an
    /// empty text; below 3 at least one suggestion, from 3 on no advice at all.
    pub open spec fn may_be_of(self, text: Seq<char>) -> bool {
        &&& self.score <= 4
        &&& text.len() == 0 ==> self.score == 0
        &&& match self.feedback {
            Some(feedback) => self.score < 3 && feedback.suggestions@.len() > 0,
            None => self.score >= 3,
        }
    }
}

/// `zxcvbn::zxcvbn`, with its `score`, `feedback`, `warning` and `suggestions`
/// as plain values. The score is at most 4, and 0 for an empty text. Below 3 it
/// comes with at least one suggestion, from 3 on with no advice at all. Which score
/// a text has also depends on the current year, so nothing more is said of it.
///
/// Its count of guesses multiplies out the factorial of the number of patterns that
/// a text is split into, powers with one factor per turn of a walk over a keyboard,
/// and sums over the shifted keys of a walk, all without saturation. None of them
/// overflows on as few characters as are asked for here: 20! fits into 64 bits and
/// 12! into 32. The text that was asked about goes into the result.
#[verifier::external_body]
fn estimate_strength<'a>(text: &'a str) -> (estimated: Estimated<'a>)
    requires
        text@.len() <= 12 || (usize::BITS == 64 && text@.len() <= 20),
    ensures
        estimated.text() == text@,
        estimated.estimate().may_be_of(text@),
{
    let entropy = zxcvbn::zxcvbn(text, &[]);
    let score = u8::from(entropy.score());
    let feedback = entropy.feedback().map(
        |f| StrengthFeedback {
            warning: f.warning().map(|w| w.to_string()),
            suggestions: f.suggestions().iter().map(|s| s.to_string()).collect(),
        },
    );
    Estimated::record(text, StrengthEstimate { score, feedback })
}

/// How many characters of a password count towards its strength.
pub const CHARACTERS_ESTIMATED: usize = 100;

/// How many characters are estimated at a time.
pub open spec fn piece_len() -> nat {
    if usize::BITS == 64 {
        20
    } else {
        12
    }
}

/// `text` cut into pieces of [`piece_len`] characters; the last one holds what is
/// left. An empty text is one empty piece.
pub open spec fn cut(text: Seq<char>) -> Seq<Seq<char>>
    decreases text.len(),
{
    if text.len() <= piece_len() {
        seq![text]
    } else {
        seq![text.take(piece_len() as int)] + cut(text.skip(piece_len() as int))
    }
}

/// The part of a password that counts towards its strength.
pub open spec fn estimated_part(password: Seq<char>) -> Seq<char> {
    if password.len() <= CHARACTERS_ESTIMATED {
        password
    } else {
        password.take(CHARACTERS_ESTIMATED as int)
    }
}

/// The pieces in which a password is estimated.
pub open spec fn pieces_of(password: Seq<char>) -> Seq<Seq<char>> {
    cut(estimated_part(password))
}

/// Texts, as values.
pub open spec fn texts_of(texts: Seq<&str>) -> Seq<Seq<char>> {
    texts.map_values(|text: &str| text@)
}

/// The pieces are not empty unless the text is, none is longer than
/// [`piece_len`], and together they are the text.
pub proof fn law_pieces_make_up_the_text(text: Seq<char>)
    ensures
        cut(text).len() >= 1,
        forall|i: int| 0 <= i < cut(text).len() ==> (#[trigger] cut(text)[i]).len() <= piece_len(),
        text.len() > 0 ==> forall|i: int|
            0 <= i < cut(text).len() ==> (#[trigger] cut(text)[i]).len() > 0,
        cut(text).flatten() == text,
    decreases text.len(),
{
    if text.len() <= piece_len() {
        cut(text).lemma_flatten_one_element();
    } else {
        let first = text.take(piece_len() as int);
        let rest = text.skip(piece_len() as int);
        law_pieces_make_up_the_text(rest);
        assert(cut(text).drop_first() =~= cut(rest));
        assert(cut(text).first() == first);
        assert(first + rest =~= text);
        assert forall|i: int| 0 < i < cut(text).len() implies (#[trigger] cut(text)[i]) == cut(
            rest,
        )[i - 1] by {}
    }
}

/// The pieces in which a password is estimated, in order: the first 100 characters,
/// as many at a time as can be estimated.
pub fn estimable_pieces(password: &Password) -> (pieces: Vec<&str>)
    ensures
        texts_of(pieces@) == pieces_of(password@),
{
    let text = password.as_str();
    let total: usize = text.unicode_len();
    let len: usize = if total <= CHARACTERS_ESTIMATED {
        total
    } else {
        CHARACTERS_ESTIMATED
    };
    let step: usize = if usize::BITS == 64 {
        20
    } else {
        12
    };
    let ghost part = estimated_part(password@);
    let mut pieces: Vec<&str> = Vec::new();
    let mut position: usize = 0;
    proof {
        assert(part =~= text@.take(len as int));
        assert(part.skip(0) =~= part);
        assert(texts_of(pieces@) + cut(part) =~= cut(part));
    }
    while len - position > step
        invariant
            step == piece_len(),
            text@ == password@,
            len <= text@.len(),
            position <= len <= CHARACTERS_ESTIMATED,
            part == text@.take(len as int),
            texts_of(pieces@) + cut(part.skip(position as int)) == cut(part),
        decreases len - position,
    {
        let ghost before = texts_of(pieces@);
        let ghost rest = part.skip(position as int);
        let piece = text.substring_char(position, position + step);
        pieces.push(piece);
        position = position + step;
        proof {
            assert(piece@ =~= rest.take(step as int));
            assert(rest.skip(step as int) =~= part.skip(position as int));
            assert(texts_of(pieces@) =~= before.push(piece@));
            assert(before.push(piece@) + cut(part.skip(position as int)) =~= before + (seq![piece@]
                + cut(part.skip(position as int))));
        }
    }
    let piece = text.substring_char(position, len);
    proof {
        assert(piece@ =~= part.skip(position as int));
    }
    let ghost before = texts_of(pieces@);
    pieces.push(piece);
    proof {
        assert(texts_of(pieces@) =~= before + seq![piece@]);
    }
    pieces
}

/// The assessment of a password, to be shown while it is typed.
#[derive(Debug, Clone)]
pub struct PasswordAssessment {
    /// Estimated strength, from 0 (trivial) to 4 (very strong).
    pub score: u8,
    /// The score in words.
    pub label: &'static str,
    /// Is the password long enough?
    pub meets_min_length: bool,
    /// Is the score high enough?
    pub meets_score_threshold: bool,
    /// The most important warning, if there is one.
    pub warning: Option<String>,
    /// Suggestions for a better password.
    pub suggestions: Vec<String>,
}

/// The words for a score.
pub open spec fn label_of(score: u8) -> Seq<char> {
    match score {
        0 => "très faible"@,
        1 => "faible"@,
        2 => "moyen"@,
        3 => "fort"@,
        _ => "très fort"@,
    }
}

/// The words for a score.
pub fn score_label(score: u8) -> (label: &'static str)
    ensures
        label@ == label_of(score),
{
    match score {
        0 => "très faible",
        1 => "faible",
        2 => "moyen",
        3 => "fort",
        _ => "très fort",
    }
}

impl PasswordAssessment {
    /// The assessment follows from the password and the score.
    pub open spec fn is_of(self, password: Seq<char>, score: u8) -> bool {
        &&& self.score == score
        &&& self.label@ == label_of(score)
        &&& self.meets_min_length == (password.len() >= MIN_LENGTH)
        &&& self.meets_score_threshold == (score >= REQUIRED_SCORE)
    }

    /// The assessment follows from the password and the estimate.
    pub open spec fn repeats(self, password: Seq<char>, estimate: StrengthEstimate) -> bool {
        &&& self.is_of(password, estimate.score)
        &&& match estimate.feedback {
            Some(feedback) => {
                &&& self.warning == feedback.warning
                &&& self.suggestions == feedback.suggestions
            },
            None => {
                &&& self.warning is None
                &&& self.suggestions@.len() == 0
            },
        }
    }

    /// Does the password meet both rules on its strength?
    pub fn is_acceptable(&self) -> (acceptable: bool)
        ensures
            acceptable == (self.meets_min_length && self.meets_score_threshold),
    {
        self.meets_min_length && self.meets_score_threshold
    }
}

/// Assesses a password whose strength has been estimated.
pub fn assess_with_estimate(password: &Password, estimate: StrengthEstimate) -> (assessment:
    PasswordAssessment)
    ensures
        assessment.repeats(password@, estimate),
{
    let len: usize = password.as_str().unicode_len();
    let score: u8 = estimate.score;
    let (warning, suggestions) = match estimate.feedback {
        Some(feedback) => (feedback.warning, feedback.suggestions),
        None => (None, Vec::new()),
    };
    PasswordAssessment {
        score,
        label: score_label(score),
        meets_min_length: len >= MIN_LENGTH,
        meets_score_threshold: score >= REQUIRED_SCORE,
        warning,
        suggestions,
    }
}

/// The first estimate with the highest score.
pub open spec fn is_best(estimates: Seq<StrengthEstimate>, best: int) -> bool {
    &&& 0 <= best < estimates.len()
    &&& forall|i: int|
        0 <= i < estimates.len() ==> (#[trigger] estimates[i]).score <= estimates[best].score
    &&& forall|i: int| 0 <= i < best ==> (#[trigger] estimates[i]).score < estimates[best].score
}

/// The estimate that counts for a password, of those of its pieces: the one with
/// the highest score, and the first of them if several are equal. To guess a
/// password is to guess each piece of it.
pub fn best_estimate(estimates: Vec<StrengthEstimate>) -> (best: StrengthEstimate)
    requires
        estimates@.len() > 0,
    ensures
        exists|i: int| #[trigger] is_best(estimates@, i) && best == estimates@[i],
{
    let mut best: usize = 0;
    let mut i: usize = 1;
    while i < estimates.len()
        invariant
            best < i <= estimates@.len(),
            is_best(estimates@.take(i as int), best as int),
        decreases estimates@.len() - i,
    {
        let ghost seen = estimates@.take(i as int);
        let ghost more = estimates@.take(i + 1);
        proof {
            assert(more =~= seen.push(estimates@[i as int]));
            assert(forall|j: int| 0 <= j < i ==> #[trigger] more[j] == seen[j]);
        }
        if estimates[i].score > estimates[best].score {
            best = i;
        }
        i = i + 1;
    }
    proof {
        assert(estimates@.take(i as int) =~= estimates@);
        assert(is_best(estimates@, best as int));
    }
    let mut estimates = estimates;
    estimates.swap_remove(best)
}

/// Estimates each of the pieces.
fn estimate_pieces<'a>(pieces: &Vec<&'a str>) -> (estimated: Vec<Estimated<'a>>)
    requires
        forall|i: int| 0 <= i < pieces@.len() ==> (#[trigger] pieces@[i])@.len() <= piece_len(),
    ensures
        estimated@.len() == pieces@.len(),
        forall|i: int|
            0 <= i < pieces@.len() ==> (#[trigger] estimated@[i]).text() == pieces@[i]@,
        forall|i: int|
            0 <= i < pieces@.len() ==> (#[trigger] estimated@[i]).estimate().may_be_of(
                pieces@[i]@,
            ),
{
    let mut estimated: Vec<Estimated<'a>> = Vec::new();
    let mut i: usize = 0;
    while i < pieces.len()
        invariant
            i <= pieces@.len(),
            estimated@.len() == i,
            forall|j: int|
                0 <= j < pieces@.len() ==> (#[trigger] pieces@[j])@.len() <= piece_len(),
            forall|j: int| 0 <= j < i ==> (#[trigger] estimated@[j]).text() == pieces@[j]@,
            forall|j: int|
                0 <= j < i ==> (#[trigger] estimated@[j]).estimate().may_be_of(pieces@[j]@),
        decreases pieces@.len() - i,
    {
        estimated.push(estimate_strength(pieces[i]));
        i = i + 1;
    }
    estimated
}

/// The answers of the estimator.
pub open spec fn answers_of(estimated: Seq<Estimated>) -> Seq<StrengthEstimate> {
    estimated.map_values(|estimated: Estimated| estimated.estimate())
}

/// The texts that the estimator was asked about.
pub open spec fn asked_about(estimated: Seq<Estimated>) -> Seq<Seq<char>> {
    estimated.map_values(|estimated: Estimated| estimated.text())
}

fn answers(estimated: Vec<Estimated>) -> (estimates: Vec<StrengthEstimate>)
    ensures
        estimates@ == answers_of(estimated@),
{
    let ghost all = estimated@;
    let mut left = estimated;
    let mut estimates: Vec<StrengthEstimate> = Vec::new();
    while left.len() > 0
        invariant
            estimates@ + answers_of(left@) == answers_of(all),
        decreases left@.len(),
    {
        let ghost before = estimates@;
        let ghost rest = left@;
        let next = left.remove(0);
        estimates.push(next.into_estimate());
        proof {
            assert(answers_of(rest) =~= seq![answers_of(rest)[0]] + answers_of(left@));
            assert(estimates@ + answers_of(left@) =~= before + answers_of(rest));
        }
    }
    proof {
        assert(estimates@ + answers_of(left@) =~= estimates@);
    }
    estimates
}

/// The assessment is the one that the best of the estimates gives, which were made
/// of each piece of the password.
pub open spec fn rests_on(
    assessment: PasswordAssessment,
    password: Seq<char>,
    estimated: Seq<Estimated>,
) -> bool {
    let pieces = pieces_of(password);
    &&& asked_about(estimated) == pieces
    &&& forall|i: int|
        0 <= i < pieces.len() ==> (#[trigger] estimated[i]).estimate().may_be_of(pieces[i])
    &&& exists|i: int| #[trigger]
        is_best(answers_of(estimated), i) && assessment.repeats(password, answers_of(estimated)[i])
}

/// The password was estimated, and this is the assessment that came of it.
pub open spec fn is_assessment_of(assessment: PasswordAssessment, password: Seq<char>) -> bool {
    exists|estimated: Seq<Estimated>| #[trigger] rests_on(assessment, password, estimated)
}

proof fn lemma_pieces_are_full(text: Seq<char>, i: int)
    requires
        0 <= i < cut(text).len() - 1,
    ensures
        cut(text)[i].len() == piece_len(),
    decreases text.len(),
{
    let rest = text.skip(piece_len() as int);
    if i > 0 {
        assert(cut(text)[i] == cut(rest)[i - 1]);
        lemma_pieces_are_full(rest, i - 1);
    }
}

/// What an assessment rests on. The estimator was asked about consecutive texts of
/// 20 characters (12 on 32 bits), the last one perhaps shorter, which put together
/// are the password, or its first 100 characters; nothing of it is left out. The
/// score is the highest of its answers, and the advice comes with it.
pub proof fn law_assessment_rests_on_the_whole_password(
    assessment: PasswordAssessment,
    password: Seq<char>,
) -> (estimated: Seq<Estimated<'static>>)
    requires
        is_assessment_of(assessment, password),
    ensures
        estimated.len() >= 1,
        estimated.map_values(|e: Estimated| e.text()).flatten() == (if password.len() <= 100 {
            password
        } else {
            password.take(100)
        }),
        forall|i: int|
            0 <= i < estimated.len() - 1 ==> (#[trigger] estimated[i]).text().len() == (
            if usize::BITS == 64 {
                20nat
            } else {
                12nat
            }),
        estimated.last().text().len() <= (if usize::BITS == 64 {
            20nat
        } else {
            12nat
        }),
        estimated.last().text().len() == 0 ==> password.len() == 0,
        forall|i: int|
            0 <= i < estimated.len() ==> (#[trigger] estimated[i]).estimate().score
                <= assessment.score,
        exists|i: int|
            {
                &&& 0 <= i < estimated.len()
                &&& (#[trigger] estimated[i]).estimate().score == assessment.score
                &&& match estimated[i].estimate().feedback {
                    Some(feedback) => assessment.warning == feedback.warning
                        && assessment.suggestions == feedback.suggestions,
                    None => assessment.warning is None && assessment.suggestions@.len() == 0,
                }
            },
        assessment.meets_min_length <==> password.len() >= 12,
        assessment.meets_score_threshold <==> assessment.score >= 3,
{
    let estimated = choose|estimated: Seq<Estimated>| #[trigger]
        rests_on(assessment, password, estimated);
    let part = estimated_part(password);
    let pieces = cut(part);
    law_pieces_make_up_the_text(part);
    assert(estimated.map_values(|e: Estimated| e.text()) =~= asked_about(estimated));
    assert(asked_about(estimated).len() == estimated.len());
    assert forall|i: int| 0 <= i < estimated.len() implies (#[trigger] estimated[i]).text()
        == pieces[i] by {
        assert(asked_about(estimated)[i] == estimated[i].text());
    }
    assert forall|i: int| 0 <= i < estimated.len() - 1 implies (
    #[trigger] estimated[i]).text().len() == piece_len() by {
        lemma_pieces_are_full(part, i);
    }
    let all = answers_of(estimated);
    let best = choose|i: int| #[trigger]
        is_best(all, i) && assessment.repeats(password, all[i]);
    assert(all[best] == estimated[best].estimate());
    assert forall|i: int| 0 <= i < estimated.len() implies (
    #[trigger] estimated[i]).estimate().score <= assessment.score by {
        assert(all[i] == estimated[i].estimate());
    }
    estimated
}

/// The words for the five scores.
pub proof fn law_labels(score: u8)
    ensures
        score == 0 ==> label_of(score) == "très faible"@,
        score == 1 ==> label_of(score) == "faible"@,
        score == 2 ==> label_of(score) == "moyen"@,
        score == 3 ==> label_of(score) == "fort"@,
        score >= 4 ==> label_of(score) == "très fort"@,
{
}

/// Assesses a password. This refuses nothing; it only informs. It is called at
/// every keystroke, whatever is typed: the password is estimated in the pieces that
/// [`estimable_pieces`] gives, and the highest score counts.
pub fn assess_password(password: &Password) -> (assessment: PasswordAssessment)
    ensures
        is_assessment_of(assessment, password@),
        assessment.is_of(password@, assessment.score),
        assessment.score <= 4,
        password@.len() == 0 ==> assessment.score == 0,
        assessment.score < REQUIRED_SCORE ==> assessment.suggestions@.len() > 0,
        assessment.score >= REQUIRED_SCORE ==> assessment.warning is None
            && assessment.suggestions@.len() == 0,
{
    let pieces = estimable_pieces(password);
    let ghost texts = pieces_of(password@);
    proof {
        law_pieces_make_up_the_text(estimated_part(password@));
        assert forall|i: int| 0 <= i < pieces@.len() implies (#[trigger] pieces@[i])@.len()
            <= piece_len() by {
            assert(texts_of(pieces@)[i] == texts[i]);
        }
    }
    let estimated = estimate_pieces(&pieces);
    let ghost made = estimated@;
    proof {
        assert(texts_of(pieces@).len() == pieces@.len());
        assert forall|i: int| 0 <= i < texts.len() implies (
        #[trigger] made[i]).estimate().may_be_of(texts[i]) && made[i].text() == texts[i] by {
            assert(texts_of(pieces@)[i] == texts[i]);
        }
        assert(asked_about(made) =~= texts);
    }
    let best = best_estimate(answers(estimated));
    let assessment = assess_with_estimate(password, best);
    proof {
        let all = answers_of(made);
        let i = choose|i: int| #[trigger] is_best(all, i) && best == all[i];
        assert(is_best(all, i) && assessment.repeats(password@, all[i]));
        assert(all[i] == made[i].estimate());
        assert(made[i].estimate().may_be_of(texts[i]));
        assert(rests_on(assessment, password@, made));
    }
    assessment
}

/// Whether the two entries of a new password are exactly the same.
pub fn passwords_match(password: &Password, confirmation: &Password) -> (same: bool)
    ensures
        same == (password@ == confirmation@),
{
    password.same_as(confirmation)
}

/// Why a new password is refused.
#[derive(Debug)]
pub enum PasswordPolicyError {
    TooShort { actual: usize, min_length: usize },
    TooWeak { score: u8, required: u8, warning_suffix: String },
    ConfirmationMismatch,
}

impl PasswordPolicyError {
    pub open spec fn spec_message(&self) -> Seq<char> {
        match self {
            PasswordPolicyError::TooShort { actual, min_length } =>
                "mot de passe trop court : "@ + text::decimal(*actual as nat)
                + " caractère(s), minimum requis "@ + text::decimal(*min_length as nat),
            PasswordPolicyError::TooWeak { score, required, warning_suffix } =>
                "mot de passe trop faible (score "@ + text::decimal(*score as nat)
                + "/4, minimum requis "@ + text::decimal(*required as nat) + "/4)"@
                + warning_suffix@,
            PasswordPolicyError::ConfirmationMismatch =>
                "les deux saisies du mot de passe ne correspondent pas"@,
        }
    }

    /// The message shown to the user.
    pub fn message(&self) -> (message: String)
        ensures
            message@ == self.spec_message(),
    {
        match self {
            PasswordPolicyError::TooShort { actual, min_length } => {
                let mut message = "mot de passe trop court : ".to_string();
                push_decimal(&mut message, *actual as u64);
                message.append(" caractère(s), minimum requis ");
                push_decimal(&mut message, *min_length as u64);
                message
            },
            PasswordPolicyError::TooWeak { score, required, warning_suffix } => {
                let mut message = "mot de passe trop faible (score ".to_string();
                push_decimal(&mut message, *score as u64);
                message.append("/4, minimum requis ");
                push_decimal(&mut message, *required as u64);
                message.append("/4)");
                message.append(warning_suffix.as_str());
                message
            },
            PasswordPolicyError::ConfirmationMismatch =>
                "les deux saisies du mot de passe ne correspondent pas".to_string(),
        }
    }
}

/// What a warning adds to the message about a weak password.
pub open spec fn suffix_of(warning: Option<String>) -> Seq<char> {
    match warning {
        Some(warning) => " — "@ + warning@,
        None => Seq::empty(),
    }
}

/// Accepts a new password that has been assessed, or says which rule it breaks
/// first: length, then strength, then confirmation.
pub fn validate_assessed(
    password: &Password,
    confirmation: &Password,
    assessment: PasswordAssessment,
) -> (result: Result<PasswordAssessment, PasswordPolicyError>)
    ensures
        match result {
            Ok(accepted) => {
                &&& assessment.meets_min_length
                &&& assessment.meets_score_threshold
                &&& password@ == confirmation@
                &&& accepted == assessment
            },
            Err(PasswordPolicyError::TooShort { actual, min_length }) => {
                &&& !assessment.meets_min_length
                &&& actual == password@.len()
                &&& min_length == MIN_LENGTH
            },
            Err(PasswordPolicyError::TooWeak { score, required, warning_suffix }) => {
                &&& assessment.meets_min_length
                &&& !assessment.meets_score_threshold
                &&& score == assessment.score
                &&& required == REQUIRED_SCORE
                &&& warning_suffix@ == suffix_of(assessment.warning)
            },
            Err(PasswordPolicyError::ConfirmationMismatch) => {
                &&& assessment.meets_min_length
                &&& assessment.meets_score_threshold
                &&& password@ != confirmation@
            },
        },
{
    if !assessment.meets_min_length {
        return Err(
            PasswordPolicyError::TooShort {
                actual: password.as_str().unicode_len(),
                min_length: MIN_LENGTH,
            },
        );
    }
    if !assessment.meets_score_threshold {
        let warning_suffix = match &assessment.warning {
            Some(warning) => {
                let mut suffix = " — ".to_string();
                suffix.append(warning.as_str());
                suffix
            },
            None => String::new(),
        };
        return Err(
            PasswordPolicyError::TooWeak {
                score: assessment.score,
                required: REQUIRED_SCORE,
                warning_suffix,
            },
        );
    }
    if !passwords_match(password, confirmation) {
        return Err(PasswordPolicyError::ConfirmationMismatch);
    }
    Ok(assessment)
}

/// Accepts a new password, or says which rule it breaks first. A password that
/// is too short is refused as such whatever its strength; one that is accepted
/// meets all three rules.
pub fn validate_new_password(password: &Password, confirmation: &Password) -> (result: Result<
    PasswordAssessment,
    PasswordPolicyError,
>)
    ensures
        password@.len() < MIN_LENGTH <==> result matches Err(PasswordPolicyError::TooShort { .. }),
        match result {
            Ok(accepted) => {
                &&& is_assessment_of(accepted, password@)
                &&& accepted.is_of(password@, accepted.score)
                &&& REQUIRED_SCORE <= accepted.score <= 4
                &&& accepted.warning is None
                &&& accepted.suggestions@.len() == 0
                &&& password@ == confirmation@
            },
            Err(PasswordPolicyError::TooShort { actual, min_length }) => {
                &&& actual == password@.len()
                &&& min_length == MIN_LENGTH
            },
            Err(PasswordPolicyError::TooWeak { score, required, warning_suffix }) => {
                &&& score < REQUIRED_SCORE
                &&& required == REQUIRED_SCORE
                &&& exists|assessment: PasswordAssessment| #[trigger]
                    is_assessment_of(assessment, password@) && assessment.score == score
                        && warning_suffix@ == (match assessment.warning {
                        Some(warning) => " — "@ + warning@,
                        None => Seq::<char>::empty(),
                    })
            },
            Err(PasswordPolicyError::ConfirmationMismatch) => {
                &&& password@ != confirmation@
                &&& exists|assessment: PasswordAssessment| #[trigger]
                    is_assessment_of(assessment, password@) && assessment.score >= REQUIRED_SCORE
            },
        },
{
    let assessment = assess_password(password);
    validate_assessed(password, confirmation, assessment)
}

/// How a check of a new password ends.
#[derive(Debug, Clone, Copy, PartialEq, Eq, Structural)]
pub enum CheckVerdict {
    Accepted,
    Mismatch,
    TooWeak,
}

impl CheckVerdict {
    pub open spec fn spec_message(self) -> Seq<char> {
        match self {
            CheckVerdict::Accepted => "Mot de passe accepté (bouton de validation activé)."@,
            CheckVerdict::Mismatch => "Erreur : les deux saisies ne correspondent pas."@,
            CheckVerdict::TooWeak =>
                "Mot de passe refusé : robustesse insuffisante (bouton de validation désactivé)."@,
        }
    }

    /// The message shown to the user.
    pub fn message(&self) -> (message: &'static str)
        ensures
            message@ == self.spec_message(),
    {
        match self {
            CheckVerdict::Accepted => "Mot de passe accepté (bouton de validation activé).",
            CheckVerdict::Mismatch => "Erreur : les deux saisies ne correspondent pas.",
            CheckVerdict::TooWeak =>
                "Mot de passe refusé : robustesse insuffisante (bouton de validation désactivé).",
        }
    }
}

/// What a check of a new password tells the user.
#[derive(Debug)]
pub struct CheckReport {
    pub lines: Vec<String>,
    pub verdict: CheckVerdict,
}

/// The first line of a report.
pub open spec fn score_line(assessment: PasswordAssessment) -> Seq<char> {
    "Score : "@ + text::decimal(assessment.score as nat) + "/4 ("@ + assessment.label@
        + ") — longueur minimale "@ + text::decimal(MIN_LENGTH as nat) + " : "@ + (
    if assessment.meets_min_length {
        "ok"@
    } else {
        "insuffisante"@
    })
}

/// The lines of a report: the score, then the warning, then the suggestions.
pub open spec fn report_lines(assessment: PasswordAssessment) -> Seq<Seq<char>> {
    let warning = match assessment.warning {
        Some(warning) => seq!["Avertissement : "@ + warning@],
        None => Seq::<Seq<char>>::empty(),
    };
    seq![score_line(assessment)] + warning + assessment.suggestions@.map_values(
        |suggestion: String| "Suggestion : "@ + suggestion@,
    )
}

/// Reports on a new password that has been assessed, given whether the two
/// entries match.
pub fn check_report(assessment: &PasswordAssessment, matching: bool) -> (report: CheckReport)
    ensures
        report.lines@.map_values(|line: String| line@) == report_lines(*assessment),
        report.verdict == (if !matching {
            CheckVerdict::Mismatch
        } else if assessment.meets_min_length && assessment.meets_score_threshold {
            CheckVerdict::Accepted
        } else {
            CheckVerdict::TooWeak
        }),
{
    let mut lines: Vec<String> = Vec::new();
    let mut line = "Score : ".to_string();
    push_decimal(&mut line, assessment.score as u64);
    line.append("/4 (");
    line.append(assessment.label);
    line.append(") — longueur minimale ");
    push_decimal(&mut line, MIN_LENGTH as u64);
    line.append(" : ");
    line.append(if assessment.meets_min_length { "ok" } else { "insuffisante" });
    lines.push(line);
    if let Some(warning) = &assessment.warning {
        let mut line = "Avertissement : ".to_string();
        line.append(warning.as_str());
        lines.push(line);
    }
    let ghost start = lines@.map_values(|line: String| line@);
    let ghost advice = assessment.suggestions@.map_values(
        |suggestion: String| "Suggestion : "@ + suggestion@,
    );
    proof {
        assert(start + advice =~= report_lines(*assessment));
        assert(start + advice.take(0) =~= start);
    }
    let mut i: usize = 0;
    while i < assessment.suggestions.len()
        invariant
            i <= assessment.suggestions@.len(),
            advice == assessment.suggestions@.map_values(
                |suggestion: String| "Suggestion : "@ + suggestion@,
            ),
            lines@.map_values(|line: String| line@) == start + advice.take(i as int),
        decreases assessment.suggestions@.len() - i,
    {
        let ghost before = lines@.map_values(|line: String| line@);
        let mut line = "Suggestion : ".to_string();
        line.append(assessment.suggestions[i].as_str());
        let ghost this = line@;
        lines.push(line);
        proof {
            assert(lines@.map_values(|line: String| line@) =~= before.push(this));
            assert(advice.take(i + 1) =~= advice.take(i as int).push(this));
            assert(before.push(this) =~= start + advice.take(i + 1));
        }
        i = i + 1;
    }
    proof {
        assert(advice.take(advice.len() as int) =~= advice);
    }
    let verdict = if !matching {
        CheckVerdict::Mismatch
    } else if assessment.is_acceptable() {
        CheckVerdict::Accepted
    } else {
        CheckVerdict::TooWeak
    };
    CheckReport { lines, verdict }
}

/// Why a new password is refused, in words.
pub proof fn law_policy_messages(error: PasswordPolicyError, verdict: CheckVerdict)
    ensures
        error.spec_message() == (match error {
            PasswordPolicyError::TooShort { actual, min_length } =>
                "mot de passe trop court : "@ + text::decimal(actual as nat)
                + " caractère(s), minimum requis "@ + text::decimal(min_length as nat),
            PasswordPolicyError::TooWeak { score, required, warning_suffix } =>
                "mot de passe trop faible (score "@ + text::decimal(score as nat)
                + "/4, minimum requis "@ + text::decimal(required as nat) + "/4)"@
                + warning_suffix@,
            PasswordPolicyError::ConfirmationMismatch =>
                "les deux saisies du mot de passe ne correspondent pas"@,
        }),
        verdict.spec_message() == (match verdict {
            CheckVerdict::Accepted => "Mot de passe accepté (bouton de validation activé)."@,
            CheckVerdict::Mismatch => "Erreur : les deux saisies ne correspondent pas."@,
            CheckVerdict::TooWeak =>
                "Mot de passe refusé : robustesse insuffisante (bouton de validation désactivé)."@,
        }),
{
}

/// A report has a line for the score, one for the warning if there is one, and one for
/// each suggestion, in order.
pub proof fn law_report_has_all_the_advice(assessment: PasswordAssessment, i: int)
    requires
        0 <= i < assessment.suggestions@.len(),
    ensures
        ({
            let lines = report_lines(assessment);
            let warnings = if assessment.warning is Some {
                1int
            } else {
                0int
            };
            &&& lines.len() == 1 + warnings + assessment.suggestions@.len()
            &&& lines[0] == "Score : "@ + text::decimal(assessment.score as nat) + "/4 ("@
                + assessment.label@ + ") — longueur minimale "@ + text::decimal(12) + " : "@ + (
            if assessment.meets_min_length {
                "ok"@
            } else {
                "insuffisante"@
            })
            &&& assessment.warning is Some ==> lines[1] == "Avertissement : "@
                + assessment.warning->Some_0@
            &&& lines[1 + warnings + i] == "Suggestion : "@ + assessment.suggestions@[i]@
        }),
{
}

/// A report without suggestions has a line for the score, and one for the warning if
/// there is one.
pub proof fn law_report_without_suggestions(assessment: PasswordAssessment)
    requires
        assessment.suggestions@.len() == 0,
    ensures
        ({
            let lines = report_lines(assessment);
            &&& lines.len() == (if assessment.warning is Some {
                2int
            } else {
                1int
            })
            &&& lines[0] == "Score : "@ + text::decimal(assessment.score as nat) + "/4 ("@
                + assessment.label@ + ") — longueur minimale "@ + text::decimal(12) + " : "@ + (
            if assessment.meets_min_length {
                "ok"@
            } else {
                "insuffisante"@
            })
            &&& assessment.warning is Some ==> lines[1] == "Avertissement : "@
                + assessment.warning->Some_0@
        }),
{
}

/// What an assessment takes over from an estimate: the score, its words, whether both
/// rules are met, and all the advice.
pub proof fn law_assessment_takes_over_the_estimate(
    assessment: PasswordAssessment,
    password: Seq<char>,
    estimate: StrengthEstimate,
)
    requires
        assessment.repeats(password, estimate),
    ensures
        assessment.score == estimate.score,
        assessment.label@ == label_of(estimate.score),
        assessment.meets_min_length <==> password.len() >= 12,
        assessment.meets_score_threshold <==> estimate.score >= 3,
        match estimate.feedback {
            Some(feedback) => assessment.warning == feedback.warning && assessment.suggestions
                == feedback.suggestions,
            None => assessment.warning is None && assessment.suggestions@.len() == 0,
        },
{
}

/// The best estimate has the highest score, and comes before all others that have it.
pub proof fn law_best_estimate_is_the_first_of_the_highest(
    estimates: Seq<StrengthEstimate>,
    best: int,
    other: int,
)
    requires
        is_best(estimates, best),
        0 <= other < estimates.len(),
    ensures
        0 <= best < estimates.len(),
        estimates[other].score <= estimates[best].score,
        estimates[other].score == estimates[best].score ==> best <= other,
{
}

} // verus!
