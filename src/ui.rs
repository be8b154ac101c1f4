//! The state of the interactive backup tool and its transitions. The
//! surface that draws pages and collects input feeds `Message`s to
//! `HyperbackedApp::update` and performs the `Effect` it returns.
use vstd::prelude::*;
use vstd::slice::slice_to_vec;
use crate::backup::{BackupConfig, BackupShare, Secret};

verus! {

/// The page being shown.
#[derive(Clone, Copy, Debug, PartialEq, Eq, Structural)]
pub enum AppPage {
    Welcome,
    CreateBackup,
    RestoreBackup,
    BackupGenerating,
    BackupResults,
}

/// The kind of backup to create: one share holding everything, or `min`
/// shares out of `max` required.
#[derive(Clone, Copy, Debug, PartialEq, Eq, Structural)]
pub enum BackupType {
    Standard,
    Distributed { min: u8, max: u8 },
}

/// An input from the interactive surface.
#[derive(Clone, Debug)]
pub enum Message {
    SwitchPage(AppPage),
    SecretChanged(String),
    PassphraseChanged(String),
    GenerateSecret,
    CreateBackup,
    LabelChanged(String),
    BackupTypeChanged(BackupType),
    BackupCompleted(Option<Vec<BackupShare>>),
    SaveBackup(usize),
    End,
}

/// Work that a transition asks the surrounding program to do.
#[derive(Clone, Debug)]
pub enum Effect {
    Nothing,
    /// Generate a passphrase and report it as `PassphraseChanged`.
    GeneratePassphrase,
    /// Create a backup in the background and report it as `BackupCompleted`.
    RunBackup { secrets: Vec<Secret>, config: BackupConfig },
    /// Save the generated share at `index`, with the label and the number
    /// of shares in the backup.
    SaveShare { index: usize, label: String, total: usize },
}

/// The state of the tool.
pub struct HyperbackedApp {
    pub page: AppPage,
    pub secret: String,
    pub passphrase: String,
    pub label: String,
    pub backup_type: BackupType,
    pub generated_backup: Option<Vec<BackupShare>>,
    pub should_exit: bool,
}

/// The configuration a backup type stands for.
pub open spec fn config_of(t: BackupType) -> BackupConfig {
    match t {
        BackupType::Standard => BackupConfig { required_shares: 1, num_shares: 1 },
        BackupType::Distributed { min, max } => BackupConfig { required_shares: min, num_shares: max },
    }
}

/// Position of the first share numbered `num`, if any.
pub open spec fn first_numbered(shares: Seq<BackupShare>, num: usize) -> Option<int> {
    if exists|i: int| 0 <= i < shares.len() && shares[i].number as usize == num {
        Some(
            choose|i: int|
                0 <= i < shares.len() && shares[i].number as usize == num && forall|k: int|
                    0 <= k < i ==> shares[k].number as usize != num,
        )
    } else {
        None
    }
}

impl BackupType {
    /// The backup types offered for choice.
    pub fn all() -> (r: Vec<BackupType>)
        ensures
            r@ == seq![
                BackupType::Standard,
                BackupType::Distributed { min: 2, max: 3 },
                BackupType::Distributed { min: 3, max: 5 },
                BackupType::Distributed { min: 4, max: 7 },
            ],
    {
        let r = vec![
            BackupType::Standard,
            BackupType::Distributed { min: 2, max: 3 },
            BackupType::Distributed { min: 3, max: 5 },
            BackupType::Distributed { min: 4, max: 7 },
        ];
        assert(r@ =~= seq![
            BackupType::Standard,
            BackupType::Distributed { min: 2, max: 3 },
            BackupType::Distributed { min: 3, max: 5 },
            BackupType::Distributed { min: 4, max: 7 },
        ]);
        r
    }

    /// The configuration this backup type stands for.
    pub fn config(&self) -> (r: BackupConfig)
        ensures
            r == config_of(*self),
    {
        match *self {
            BackupType::Standard => BackupConfig { required_shares: 1, num_shares: 1 },
            BackupType::Distributed { min, max } => BackupConfig { required_shares: min, num_shares: max },
        }
    }
}

impl Default for HyperbackedApp {
    fn default() -> (r: Self)
        ensures
            r.page == AppPage::Welcome,
            r.secret@.len() == 0,
            r.passphrase@.len() == 0,
            r.label@.len() == 0,
            r.backup_type == BackupType::Standard,
            r.generated_backup is None,
            !r.should_exit,
    {
        HyperbackedApp {
            page: AppPage::Welcome,
            secret: String::new(),
            passphrase: String::new(),
            label: String::new(),
            backup_type: BackupType::Standard,
            generated_backup: None,
            should_exit: false,
        }
    }
}

/// Position of the first share numbered `num`.
fn find_share(shares: &Vec<BackupShare>, num: usize) -> (r: Option<usize>)
    ensures
        r matches Some(i) ==> first_numbered(shares@, num) == Some(i as int),
        r is None ==> first_numbered(shares@, num) is None,
{
    let mut i: usize = 0;
    while i < shares.len()
        invariant
            i <= shares.len(),
            forall|k: int| 0 <= k < i ==> shares@[k].number as usize != num,
        decreases shares.len() - i,
    {
        if shares[i].number as usize == num {
            let ghost w = choose|j: int|
                0 <= j < shares@.len() && shares@[j].number as usize == num && forall|k: int|
                    0 <= k < j ==> shares@[k].number as usize != num;
            assert(0 <= i < shares@.len() && shares@[i as int].number as usize == num && forall|k: int|
                0 <= k < i ==> shares@[k].number as usize != num);
            assert(w == i as int) by {
                if w < i as int {
                } else if w > i as int {
                }
            }
            return Some(i);
        }
        i = i + 1;
    }
    None
}

impl HyperbackedApp {
    /// The title of the tool.
    pub fn title(&self) -> (r: String)
        ensures
            r@ == "Hyperbacked"@,
    {
        String::from_str("Hyperbacked")
    }

    /// Whether the tool has been asked to exit.
    pub fn should_exit(&self) -> (r: bool)
        ensures
            r == self.should_exit,
    {
        self.should_exit
    }

    /// Applies `message` to the state and returns the work it asks for.
    pub fn update(&mut self, message: Message) -> (e: Effect)
        ensures
            match message {
                Message::SwitchPage(p) => final(self).page == p && final(self).secret == old(self).secret
                    && final(self).passphrase == old(self).passphrase && final(self).label == old(self).label
                    && final(self).backup_type == old(self).backup_type && final(self).generated_backup
                    == old(self).generated_backup && final(self).should_exit == old(self).should_exit
                    && e is Nothing,
                Message::SecretChanged(s) => final(self).secret == s && final(self).page == old(self).page
                    && final(self).passphrase == old(self).passphrase && final(self).label == old(self).label
                    && final(self).backup_type == old(self).backup_type && final(self).generated_backup
                    == old(self).generated_backup && final(self).should_exit == old(self).should_exit
                    && e is Nothing,
                Message::PassphraseChanged(s) => final(self).passphrase == s && final(self).page
                    == old(self).page && final(self).secret == old(self).secret && final(self).label
                    == old(self).label && final(self).backup_type == old(self).backup_type
                    && final(self).generated_backup == old(self).generated_backup && final(self).should_exit
                    == old(self).should_exit && e is Nothing,
                Message::GenerateSecret => *final(self) == *old(self) && e is GeneratePassphrase,
                Message::CreateBackup => final(self).page == AppPage::BackupGenerating && final(self).secret
                    == old(self).secret && final(self).passphrase == old(self).passphrase && final(self).label
                    == old(self).label && final(self).backup_type == old(self).backup_type
                    && final(self).generated_backup == old(self).generated_backup && final(self).should_exit
                    == old(self).should_exit && (e matches Effect::RunBackup { secrets, config } && config
                    == config_of(old(self).backup_type) && secrets@.len() == 1 && secrets@[0].value@
                    == vstd::utf8::encode_utf8(old(self).secret@) && secrets@[0].passphrase@
                    == vstd::utf8::encode_utf8(old(self).passphrase@)),
                Message::LabelChanged(s) => final(self).label == s && final(self).page == old(self).page
                    && final(self).secret == old(self).secret && final(self).passphrase == old(self).passphrase
                    && final(self).backup_type == old(self).backup_type && final(self).generated_backup
                    == old(self).generated_backup && final(self).should_exit == old(self).should_exit
                    && e is Nothing,
                Message::BackupTypeChanged(t) => final(self).backup_type == t && final(self).page
                    == old(self).page && final(self).secret == old(self).secret && final(self).passphrase
                    == old(self).passphrase && final(self).label == old(self).label
                    && final(self).generated_backup == old(self).generated_backup && final(self).should_exit
                    == old(self).should_exit && e is Nothing,
                Message::BackupCompleted(b) => final(self).generated_backup == b && final(self).page
                    == AppPage::BackupResults && final(self).secret == old(self).secret
                    && final(self).passphrase == old(self).passphrase && final(self).label == old(self).label
                    && final(self).backup_type == old(self).backup_type && final(self).should_exit
                    == old(self).should_exit && e is Nothing,
                Message::SaveBackup(num) => *final(self) == *old(self) && match old(self).generated_backup {
                    Some(shares) => match first_numbered(shares@, num) {
                        Some(i) => e matches Effect::SaveShare { index, label, total } && index == i && label
                            == old(self).label && total == shares@.len(),
                        None => e is Nothing,
                    },
                    None => e is Nothing,
                },
                Message::End => final(self).should_exit && final(self).page == old(self).page
                    && final(self).secret == old(self).secret && final(self).passphrase == old(self).passphrase
                    && final(self).label == old(self).label && final(self).backup_type == old(self).backup_type
                    && final(self).generated_backup == old(self).generated_backup && e is Nothing,
            },
    {
        match message {
            Message::SwitchPage(page) => {
                self.page = page;
            },
            Message::SecretChanged(secret) => {
                self.secret = secret;
            },
            Message::PassphraseChanged(passphrase) => {
                self.passphrase = passphrase;
            },
            Message::GenerateSecret => {
                return Effect::GeneratePassphrase;
            },
            Message::CreateBackup => {
                self.page = AppPage::BackupGenerating;
                let value = slice_to_vec(self.secret.as_str().as_bytes());
                let passphrase = slice_to_vec(self.passphrase.as_str().as_bytes());
                let mut secrets: Vec<Secret> = Vec::new();
                secrets.push(Secret { value, passphrase });
                return Effect::RunBackup { secrets, config: self.backup_type.config() };
            },
            Message::LabelChanged(label) => {
                self.label = label;
            },
            Message::BackupTypeChanged(backup_type) => {
                self.backup_type = backup_type;
            },
            Message::BackupCompleted(result) => {
                self.generated_backup = result;
                self.page = AppPage::BackupResults;
            },
            Message::SaveBackup(num) => {
                if let Some(shares) = &self.generated_backup {
                    if let Some(index) = find_share(shares, num) {
                        return Effect::SaveShare { index, label: self.label.clone(), total: shares.len() };
                    }
                }
            },
            Message::End => {
                self.should_exit = true;
            },
        }
        Effect::Nothing
    }
}

} // verus!
