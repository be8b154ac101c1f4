use hyperbacked::backup::{BackupConfig, BackupShare};
use hyperbacked::ui::{AppPage, BackupType, Effect, HyperbackedApp, Message};

fn share(number: u8) -> BackupShare {
    BackupShare { number, required_shares: 2, num_shares: 3, fragments: vec![vec![number]] }
}

#[test]
fn starts_on_welcome_page() {
    let app = HyperbackedApp::default();
    assert_eq!(app.page, AppPage::Welcome);
    assert_eq!(app.backup_type, BackupType::Standard);
    assert!(app.generated_backup.is_none());
    assert!(!app.should_exit());
    assert_eq!(app.title(), "Hyperbacked");
}

#[test]
fn text_inputs_update_state() {
    let mut app = HyperbackedApp::default();
    assert!(matches!(app.update(Message::SecretChanged("s3cret".to_string())), Effect::Nothing));
    assert!(matches!(app.update(Message::PassphraseChanged("pass".to_string())), Effect::Nothing));
    assert!(matches!(app.update(Message::LabelChanged("label".to_string())), Effect::Nothing));
    assert_eq!(app.secret, "s3cret");
    assert_eq!(app.passphrase, "pass");
    assert_eq!(app.label, "label");
    assert_eq!(app.page, AppPage::Welcome);
}

#[test]
fn switch_page_and_end() {
    let mut app = HyperbackedApp::default();
    app.update(Message::SwitchPage(AppPage::CreateBackup));
    assert_eq!(app.page, AppPage::CreateBackup);
    app.update(Message::End);
    assert!(app.should_exit());
}

#[test]
fn generate_secret_asks_for_a_passphrase() {
    let mut app = HyperbackedApp::default();
    assert!(matches!(app.update(Message::GenerateSecret), Effect::GeneratePassphrase));
    assert_eq!(app.passphrase, "");
}

#[test]
fn create_backup_runs_with_selected_type() {
    let mut app = HyperbackedApp::default();
    app.update(Message::SecretChanged("value".to_string()));
    app.update(Message::PassphraseChanged("pw".to_string()));
    app.update(Message::BackupTypeChanged(BackupType::Distributed { min: 3, max: 5 }));
    match app.update(Message::CreateBackup) {
        Effect::RunBackup { secrets, config } => {
            assert_eq!(secrets.len(), 1);
            assert_eq!(secrets[0].value, b"value".to_vec());
            assert_eq!(secrets[0].passphrase, b"pw".to_vec());
            assert_eq!(config, BackupConfig { required_shares: 3, num_shares: 5 });
        }
        _ => panic!("expected a backup to run"),
    }
    assert_eq!(app.page, AppPage::BackupGenerating);
}

#[test]
fn standard_type_is_one_of_one() {
    assert_eq!(BackupType::Standard.config(), BackupConfig { required_shares: 1, num_shares: 1 });
    let all = BackupType::all();
    assert_eq!(all.len(), 4);
    assert_eq!(all[2], BackupType::Distributed { min: 3, max: 5 });
}

#[test]
fn completed_backup_shows_results_and_saves_by_number() {
    let mut app = HyperbackedApp::default();
    app.update(Message::LabelChanged("wallet".to_string()));
    assert!(matches!(app.update(Message::SaveBackup(1)), Effect::Nothing));
    app.update(Message::BackupCompleted(Some(vec![share(1), share(2), share(3)])));
    assert_eq!(app.page, AppPage::BackupResults);
    match app.update(Message::SaveBackup(2)) {
        Effect::SaveShare { index, label, total } => {
            assert_eq!(index, 1);
            assert_eq!(label, "wallet");
            assert_eq!(total, 3);
        }
        _ => panic!("expected a share to save"),
    }
    assert!(matches!(app.update(Message::SaveBackup(7)), Effect::Nothing));
}
