//! A verified core for a command-run notifier: an append-only job store
//! encoded as structured text, a deterministic run report, configuration
//! resolution, and the pipeline's failure-composition rules.
pub mod codec;
pub mod jobdb;
pub mod mails;
pub mod pipeline;
pub mod text;

use vstd::prelude::*;

verus! {

/// Notification settings, as decoded from the configuration file.
pub struct Config {
    /// Recipient address of the notification.
    pub target: String,
    /// Sender identity, also the SMTP user.
    pub email: String,
    /// SMTP secret.
    pub passwd: String,
    /// SMTP server host; derived from the sender's domain when left empty.
    pub smtp: String,
}

/// Errors of configuration resolution.
#[derive(Clone, Copy, Debug, PartialEq, Eq, Structural)]
pub enum ConfigError {
    /// The sender address holds no `@`, so no SMTP host can be derived.
    InvalidEmailFormat,
}

/// The first `@` in `s` at or after `i`, or `-1` when there is none.
pub open spec fn find_at(s: Seq<char>, i: int) -> int
    decreases s.len() - i when 0 <= i <= s.len()
{
    if i >= s.len() {
        -1
    } else if s[i] == '@' {
        i
    } else {
        find_at(s, i + 1)
    }
}

/// The SMTP host derived from a sender address: `smtp.` before everything
/// after the first `@`.
pub open spec fn derived_smtp(email: Seq<char>) -> Seq<char> {
    "smtp."@ + email.subrange(find_at(email, 0) + 1, email.len() as int)
}

impl Config {
    /// Resolves a decoded configuration: a configured SMTP host is kept as
    /// it is; an empty one is derived from the sender's domain, and the lack
    /// of a domain is an error. The other fields never change.
    pub fn resolve(self) -> (r: Result<Config, ConfigError>)
        ensures
            self.smtp@.len() > 0 ==> r == Ok::<Config, ConfigError>(self),
            self.smtp@.len() == 0 && find_at(self.email@, 0) >= 0 ==> (match r {
                Ok(c) => {
                    &&& c.target == self.target
                    &&& c.email == self.email
                    &&& c.passwd == self.passwd
                    &&& c.smtp@ == derived_smtp(self.email@)
                },
                Err(_) => false,
            }),
            self.smtp@.len() == 0 && find_at(self.email@, 0) < 0 ==> r == Err::<
                Config,
                ConfigError,
            >(ConfigError::InvalidEmailFormat),
    {
        if !self.smtp.as_str().is_empty() {
            return Ok(self);
        }
        let email = self.email.as_str();
        let n = email.unicode_len();
        let mut k: usize = 0;
        while k < n
            invariant
                k <= n,
                n == email@.len(),
                email@ == self.email@,
                self.smtp@.len() == 0,
                find_at(email@, 0) == find_at(email@, k as int),
            decreases n - k,
        {
            if email.get_char(k) == '@' {
                let mut host: Vec<char> = Vec::new();
                crate::text::push_str_chars(&mut host, "smtp.");
                let mut m: usize = k + 1;
                assert(email@.subrange(k as int + 1, m as int) =~= Seq::<char>::empty());
                assert(host@ =~= "smtp."@ + email@.subrange(k as int + 1, m as int));
                while m < n
                    invariant
                        k < m <= n,
                        n == email@.len(),
                        host@ == "smtp."@ + email@.subrange(k as int + 1, m as int),
                    decreases n - m,
                {
                    host.push(email.get_char(m));
                    m = m + 1;
                    assert(host@ =~= "smtp."@ + email@.subrange(k as int + 1, m as int));
                }
                assert(find_at(email@, k as int) == k);
                let smtp = crate::text::chars_to_string(&host);
                return Ok(
                    Config { target: self.target, email: self.email, passwd: self.passwd, smtp },
                );
            }
            k = k + 1;
        }
        assert(find_at(email@, n as int) == -1);
        Err(ConfigError::InvalidEmailFormat)
    }
}

} // verus!
