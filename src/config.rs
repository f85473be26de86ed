use vstd::prelude::*;

verus! {

/// The persisted settings: the access token used for every call.
#[derive(Clone, Debug)]
pub struct Config {
    pub token: String,
}

impl Default for Config {
    /// A configuration with no token, written on first use.
    fn default() -> (r: Config)
        ensures
            r.token@ == Seq::<char>::empty(),
    {
        Config { token: String::new() }
    }
}

impl Config {
    /// Takes `token` only when the service accepted it, and says whether the
    /// configuration changed and must be saved. A rejected token leaves the
    /// configuration exactly as it was.
    pub fn login(&mut self, token: &str, accepted: bool) -> (changed: bool)
        ensures
            changed == accepted,
            accepted ==> final(self).token@ == token@,
            !accepted ==> *final(self) == *old(self),
    {
        if accepted {
            self.token = token.to_owned();
        }
        accepted
    }

    /// Forgets the token.
    pub fn logout(&mut self)
        ensures
            final(self).token@ == Seq::<char>::empty(),
    {
        self.token = String::new();
    }
}

} // verus!
