//! The explicit configuration object handed to the file-source and
//! metadata-store collaborators; the core never reads global state.
use vstd::prelude::*;

verus! {

/// Where the vault lives, which week to report on, and the credentials the
/// issue-tracker collaborator needs.
#[derive(Debug)]
pub struct Config {
    jira_url: String,
    user_mail: String,
    user_id: String,
    jira_token: String,
    vault_path: String,
    daily_notes_path: String,
    project_path: String,
    week: Option<u8>,
}

impl Config {
    pub closed spec fn spec_jira_url(self) -> Seq<char> {
        self.jira_url@
    }

    pub closed spec fn spec_user_mail(self) -> Seq<char> {
        self.user_mail@
    }

    pub closed spec fn spec_user_id(self) -> Seq<char> {
        self.user_id@
    }

    pub closed spec fn spec_jira_token(self) -> Seq<char> {
        self.jira_token@
    }

    pub closed spec fn spec_vault_path(self) -> Seq<char> {
        self.vault_path@
    }

    pub closed spec fn spec_daily_notes_path(self) -> Seq<char> {
        self.daily_notes_path@
    }

    pub closed spec fn spec_project_path(self) -> Seq<char> {
        self.project_path@
    }

    pub closed spec fn spec_week(self) -> Option<u8> {
        self.week
    }

    pub fn new(
        jira_url: String,
        user_mail: String,
        user_id: String,
        jira_token: String,
        vault_path: String,
        daily_notes_path: String,
        project_path: String,
        week: Option<u8>,
    ) -> (r: Config)
        ensures
            r.spec_jira_url() == jira_url@,
            r.spec_user_mail() == user_mail@,
            r.spec_user_id() == user_id@,
            r.spec_jira_token() == jira_token@,
            r.spec_vault_path() == vault_path@,
            r.spec_daily_notes_path() == daily_notes_path@,
            r.spec_project_path() == project_path@,
            r.spec_week() == week,
    {
        Config {
            jira_url,
            user_mail,
            user_id,
            jira_token,
            vault_path,
            daily_notes_path,
            project_path,
            week,
        }
    }

    pub fn get_jira_url(&self) -> (r: &str)
        ensures
            r@ == self.spec_jira_url(),
    {
        self.jira_url.as_str()
    }

    pub fn get_user_mail(&self) -> (r: &str)
        ensures
            r@ == self.spec_user_mail(),
    {
        self.user_mail.as_str()
    }

    pub fn get_user_id(&self) -> (r: &str)
        ensures
            r@ == self.spec_user_id(),
    {
        self.user_id.as_str()
    }

    pub fn get_jira_token(&self) -> (r: &str)
        ensures
            r@ == self.spec_jira_token(),
    {
        self.jira_token.as_str()
    }

    pub fn get_vault_path(&self) -> (r: &str)
        ensures
            r@ == self.spec_vault_path(),
    {
        self.vault_path.as_str()
    }

    pub fn get_daily_notes_path(&self) -> (r: &str)
        ensures
            r@ == self.spec_daily_notes_path(),
    {
        self.daily_notes_path.as_str()
    }

    pub fn get_project_path(&self) -> (r: &str)
        ensures
            r@ == self.spec_project_path(),
    {
        self.project_path.as_str()
    }

    pub fn get_week(&self) -> (r: Option<u8>)
        ensures
            r == self.spec_week(),
    {
        self.week
    }
}

} // verus!
