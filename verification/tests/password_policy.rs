use chiffre_aes_core::password_policy::{
    assess_with_estimate, best_estimate, check_report, estimable_pieces, score_label, validate_assessed, CheckVerdict,
    StrengthEstimate, StrengthFeedback,
};
use chiffre_aes_core::secret::password_of_line;
use chiffre_aes_core::{
    assess_password, passwords_match, validate_new_password, Password, PasswordPolicyError,
    MIN_LENGTH, REQUIRED_SCORE,
};

fn pwd(s: &str) -> Password {
    Password::new(s.to_string())
}

#[test]
fn empty_password_is_rejected_for_length() {
    let p = pwd("");
    let result = validate_new_password(&p, &p);
    assert!(matches!(result, Err(PasswordPolicyError::TooShort { .. })));
}

#[test]
fn short_but_complex_password_is_rejected_for_length() {
    let p = pwd("Ax7!zQ9#");
    assert!(p.as_str().chars().count() < MIN_LENGTH);
    let result = validate_new_password(&p, &p);
    assert!(matches!(result, Err(PasswordPolicyError::TooShort { .. })));
}

#[test]
fn common_long_password_is_rejected_for_weak_score() {
    let p = pwd("passwordpassword123");
    let assessment = assess_password(&p);
    assert!(assessment.meets_min_length);
    assert!(!assessment.meets_score_threshold, "score obtenu : {}", assessment.score);

    let result = validate_new_password(&p, &p);
    assert!(matches!(result, Err(PasswordPolicyError::TooWeak { .. })));
}

#[test]
fn long_random_password_is_accepted() {
    let p = pwd("xK9$mQ2vL7#pR4wZ8!nB");
    let assessment = assess_password(&p);
    assert!(assessment.meets_min_length);
    assert!(assessment.meets_score_threshold, "score obtenu : {}", assessment.score);

    let result = validate_new_password(&p, &p);
    assert!(result.is_ok());
}

#[test]
fn confirmation_mismatch_is_detected_even_with_strong_password() {
    let p1 = pwd("xK9$mQ2vL7#pR4wZ8!nB");
    let p2 = pwd("xK9$mQ2vL7#pR4wZ8!nC");
    let result = validate_new_password(&p1, &p2);
    assert!(matches!(result, Err(PasswordPolicyError::ConfirmationMismatch)));
}

#[test]
fn passwords_match_is_strict() {
    let p1 = pwd("MêmeMotDePasse123!");
    let p2 = pwd("MêmeMotDePasse123!");
    let p3 = pwd("mêmemotdepasse123!");
    assert!(passwords_match(&p1, &p2));
    assert!(!passwords_match(&p1, &p3));
}

#[test]
fn score_labels_cover_full_range() {
    assert_eq!(score_label(0), "très faible");
    assert_eq!(score_label(1), "faible");
    assert_eq!(score_label(2), "moyen");
    assert_eq!(score_label(3), "fort");
    assert_eq!(score_label(4), "très fort");
}

#[test]
fn assess_password_never_panics_on_edge_inputs() {
    for input in [
        "",
        " ",
        "🎉🎉🎉🎉🎉🎉🎉🎉🎉🎉🎉🎉",
        &"a".repeat(500),
        "mot de passe avec espaces et accents éàçù",
    ] {
        let p = pwd(input);
        let _ = assess_password(&p);
    }
}

fn estimate(score: u8, warning: Option<&str>, suggestions: &[&str]) -> StrengthEstimate {
    StrengthEstimate {
        score,
        feedback: Some(StrengthFeedback {
            warning: warning.map(|w| w.to_string()),
            suggestions: suggestions.iter().map(|s| s.to_string()).collect(),
        }),
    }
}

#[test]
fn length_counts_characters_not_bytes() {
    assert_eq!(MIN_LENGTH, 12);
    assert!(!assess_with_estimate(&pwd("ééééééééééé"), estimate(4, None, &[])).meets_min_length);
    assert!(assess_with_estimate(&pwd("éééééééééééé"), estimate(4, None, &[])).meets_min_length);
}

#[test]
fn assessment_repeats_the_estimate() {
    let a = assess_with_estimate(&pwd("abc"), estimate(2, Some("trop commun"), &["un", "deux"]));
    assert_eq!(a.score, 2);
    assert_eq!(a.label, "moyen");
    assert!(!a.meets_score_threshold);
    assert_eq!(a.warning.as_deref(), Some("trop commun"));
    assert_eq!(a.suggestions, vec!["un".to_string(), "deux".to_string()]);
    assert!(!a.is_acceptable());

    let a = assess_with_estimate(&pwd("abcabcabcabc"), StrengthEstimate { score: 3, feedback: None });
    assert!(a.meets_score_threshold);
    assert!(a.warning.is_none() && a.suggestions.is_empty());
    assert!(a.is_acceptable());
}

#[test]
fn empty_password_has_score_zero_and_advice() {
    let a = assess_password(&pwd(""));
    assert_eq!(a.score, 0);
    assert_eq!(a.label, "très faible");
    assert!(!a.suggestions.is_empty());
    assert_eq!(
        a.suggestions[0],
        "Use a few words, avoid common phrases."
    );
}

#[test]
fn first_broken_rule_is_reported() {
    let long = pwd("abcdefghijkl");
    let other = pwd("abcdefghijkm");
    let weak = assess_with_estimate(&long, estimate(1, Some("suite de lettres"), &[]));
    match validate_assessed(&long, &other, weak) {
        Err(error) => assert_eq!(
            error.message(),
            "mot de passe trop faible (score 1/4, minimum requis 3/4) — suite de lettres"
        ),
        Ok(_) => panic!("le mot de passe devait être refusé"),
    }
    let weak = assess_with_estimate(&long, estimate(2, None, &[]));
    match validate_assessed(&long, &long, weak) {
        Err(PasswordPolicyError::TooWeak { score, required, warning_suffix }) => {
            assert_eq!((score, required), (2, REQUIRED_SCORE));
            assert_eq!(warning_suffix, "");
        }
        _ => panic!("le mot de passe devait être refusé"),
    }
    let short = assess_with_estimate(&pwd("abc"), estimate(0, None, &[]));
    match validate_assessed(&pwd("abc"), &other, short) {
        Err(error) => assert_eq!(
            error.message(),
            "mot de passe trop court : 3 caractère(s), minimum requis 12"
        ),
        Ok(_) => panic!("le mot de passe devait être refusé"),
    }
    let strong = assess_with_estimate(&long, estimate(4, None, &[]));
    match validate_assessed(&long, &other, strong) {
        Err(error) => assert_eq!(
            error.message(),
            "les deux saisies du mot de passe ne correspondent pas"
        ),
        Ok(_) => panic!("le mot de passe devait être refusé"),
    }
    let strong = assess_with_estimate(&long, estimate(3, None, &[]));
    assert_eq!(validate_assessed(&long, &long, strong).unwrap().score, 3);
}

#[test]
fn check_report_lists_score_warning_and_suggestions() {
    let a = assess_with_estimate(&pwd("abc"), estimate(1, Some("court"), &["allonger", "varier"]));
    let report = check_report(&a, true);
    assert_eq!(
        report.lines,
        vec![
            "Score : 1/4 (faible) — longueur minimale 12 : insuffisante".to_string(),
            "Avertissement : court".to_string(),
            "Suggestion : allonger".to_string(),
            "Suggestion : varier".to_string(),
        ]
    );
    assert_eq!(report.verdict, CheckVerdict::TooWeak);
    assert_eq!(check_report(&a, false).verdict, CheckVerdict::Mismatch);

    let a = assess_with_estimate(&pwd("abcdefghijkl"), StrengthEstimate { score: 4, feedback: None });
    let report = check_report(&a, true);
    assert_eq!(
        report.lines,
        vec!["Score : 4/4 (très fort) — longueur minimale 12 : ok".to_string()]
    );
    assert_eq!(report.verdict, CheckVerdict::Accepted);
    assert_eq!(
        report.verdict.message(),
        "Mot de passe accepté (bouton de validation activé)."
    );
    assert_eq!(
        CheckVerdict::Mismatch.message(),
        "Erreur : les deux saisies ne correspondent pas."
    );
    assert_eq!(
        CheckVerdict::TooWeak.message(),
        "Mot de passe refusé : robustesse insuffisante (bouton de validation désactivé)."
    );
}

#[test]
fn passwords_are_estimated_in_pieces() {
    let step = if usize::BITS == 64 { 20 } else { 12 };
    let lengths = |text: &str| -> Vec<usize> {
        let password = pwd(text);
        estimable_pieces(&password).iter().map(|p| p.chars().count()).collect()
    };
    assert_eq!(lengths(""), vec![0]);
    assert_eq!(lengths("é"), vec![1]);
    assert_eq!(lengths(&"é".repeat(step)), vec![step]);
    assert_eq!(lengths(&"é".repeat(step + 1)), vec![step, 1]);
    assert_eq!(lengths(&"é".repeat(2 * step)), vec![step, step]);
    for text in ["mot de passe avec espaces et accents éàçù".to_string(), "12".repeat(300)] {
        let password = pwd(&text);
        let whole: String = text.chars().take(100).collect();
        assert_eq!(estimable_pieces(&password).concat(), whole);
    }
}

#[test]
fn walks_over_a_keyboard_are_estimated_whatever_their_length() {
    for walk in ["12".repeat(20), "qw".repeat(50), "QWERTYUIOPoiuytrew".repeat(6)] {
        assert!(assess_password(&pwd(&walk)).score <= 4);
    }
}

#[test]
fn strong_piece_makes_a_strong_password() {
    for weak in ["qw".repeat(17), "a".repeat(60)] {
        assert!(!assess_password(&pwd(&weak)).meets_score_threshold);
        let strong = pwd(&format!("{weak}xK9$mQ2vL7#pR4wZ8!nB"));
        assert!(validate_new_password(&strong, &strong).is_ok());
    }
}

#[test]
fn best_estimate_is_the_first_of_the_highest() {
    let estimates = |scores: &[u8]| -> Vec<StrengthEstimate> {
        scores
            .iter()
            .enumerate()
            .map(|(i, &score)| estimate(score, Some(&i.to_string()), &[]))
            .collect()
    };
    for (scores, index) in [
        (vec![2], "0"),
        (vec![1, 3, 2], "1"),
        (vec![0, 2, 4], "2"),
        (vec![3, 3, 1, 3], "0"),
        (vec![0, 1, 1], "1"),
    ] {
        let best = best_estimate(estimates(&scores));
        assert_eq!(best.score, *scores.iter().max().unwrap());
        assert_eq!(best.feedback.unwrap().warning.as_deref(), Some(index));
    }
}

#[test]
fn advice_comes_with_weak_passwords_only() {
    for text in ["", "azerty", "passwordpassword123", "aaaaaaaaaaaaaaaaaaaa", "12121212"] {
        let a = assess_password(&pwd(text));
        assert!(a.score < REQUIRED_SCORE);
        assert!(!a.suggestions.is_empty());
    }
    let a = assess_password(&pwd("xK9$mQ2vL7#pR4wZ8!nB"));
    assert!(a.warning.is_none() && a.suggestions.is_empty());
    assert_eq!(
        assess_password(&pwd("password")).warning.as_deref(),
        Some("This is a top-10 common password.")
    );
}

#[test]
fn password_of_a_line_has_no_line_breaks_at_its_end() {
    for (line, password) in [
        ("", ""),
        ("\n", ""),
        ("secret\n", "secret"),
        ("secret\r\n", "secret"),
        ("secret", "secret"),
        (" été \n\r\n", " été "),
        ("a\nb\n", "a\nb"),
    ] {
        assert_eq!(password_of_line(line).as_str(), password);
    }
}
