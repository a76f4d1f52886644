use balpan::grammar::{GrammarAction, GrammarError, GrammarEvent, GrammarRegistry};

struct FakeBuilder {
    builds: usize,
    fetches: usize,
}

impl FakeBuilder {
    fn ensure(&mut self, reg: &mut GrammarRegistry, lang: &str) -> GrammarAction {
        let lang = lang.to_string();
        let mut action = reg.request(&lang);
        loop {
            let event = match action {
                GrammarAction::Fetch => {
                    self.fetches += 1;
                    GrammarEvent::Fetched { artifact_fresh: false }
                }
                GrammarAction::Build => {
                    self.builds += 1;
                    GrammarEvent::Built
                }
                GrammarAction::Load => GrammarEvent::Loaded(42),
                other => return other,
            };
            action = reg.report(&lang, event).unwrap();
        }
    }
}

#[test]
fn second_request_uses_cached_handle() {
    let mut reg = GrammarRegistry::new();
    let mut b = FakeBuilder { builds: 0, fetches: 0 };
    assert_eq!(b.ensure(&mut reg, "python"), GrammarAction::Use(42));
    assert_eq!(b.ensure(&mut reg, "python"), GrammarAction::Use(42));
    assert_eq!(b.builds, 1);
    assert_eq!(b.fetches, 1);
}

#[test]
fn fresh_artifact_skips_build() {
    let mut reg = GrammarRegistry::new();
    let lang = "rust".to_string();
    assert_eq!(reg.request(&lang), GrammarAction::Fetch);
    assert_eq!(
        reg.report(&lang, GrammarEvent::Fetched { artifact_fresh: true }),
        Some(GrammarAction::Load)
    );
    assert_eq!(reg.report(&lang, GrammarEvent::Loaded(7)), Some(GrammarAction::Use(7)));
}

#[test]
fn failure_is_kept_and_isolated() {
    let mut reg = GrammarRegistry::new();
    let bad = "cobol".to_string();
    let good = "python".to_string();
    assert_eq!(reg.request(&bad), GrammarAction::Fetch);
    assert_eq!(
        reg.report(&bad, GrammarEvent::Failed(GrammarError::FetchFailed)),
        Some(GrammarAction::Fail(GrammarError::FetchFailed))
    );
    assert_eq!(reg.request(&bad), GrammarAction::Fail(GrammarError::FetchFailed));
    assert_eq!(reg.request(&good), GrammarAction::Fetch);
    assert_eq!(reg.request(&good), GrammarAction::Wait);
}

#[test]
fn unknown_language_report_is_ignored() {
    let mut reg = GrammarRegistry::new();
    assert_eq!(reg.report(&"go".to_string(), GrammarEvent::Built), None);
}
