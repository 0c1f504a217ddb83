//! The SIP account, what the window may see of it, and the names under which
//! the settings and the password are stored for a profile.
use vstd::prelude::*;
use crate::message::message;
use crate::text::{
    byte_len, byte_length, chars_of, extend_str, has_control, is_alphanumeric, owned, parse_u16,
    parse_u16_chars, string_of, trim, trim_str,
};

verus! {

pub const DEFAULT_SERVER: &'static str = "127.0.0.1";
pub const DEFAULT_PORT: u16 = 5060;

pub struct Account {
    pub server: String,
    pub port: u16,
    pub extension: String,
    pub auth_user: String,
    pub password: String,
}

/// What the window is shown of an account: everything but the password.
pub struct AccountView {
    pub server: String,
    pub port: u16,
    pub extension: String,
    pub auth_user: String,
    pub has_password: bool,
}

impl Default for Account {
    fn default() -> (r: Self)
        ensures
            r.server@ == DEFAULT_SERVER@,
            r.port == DEFAULT_PORT,
            r.extension@.len() == 0,
            r.auth_user@.len() == 0,
            r.password@.len() == 0,
    {
        Account {
            server: owned(DEFAULT_SERVER),
            port: DEFAULT_PORT,
            extension: String::new(),
            auth_user: String::new(),
            password: String::new(),
        }
    }
}

/// A server name: letters, digits, dots and hyphens.
pub open spec fn server_ok(s: Seq<char>) -> bool {
    &&& s.len() > 0
    &&& byte_len(s) <= 253
    &&& forall|i: int| 0 <= i < s.len() ==> is_alphanumeric(#[trigger] s[i]) || s[i] == '.' || s[i] == '-'
}

/// A SIP user: letters, digits and `_`, `.`, `+`, `-`.
pub open spec fn user_ok(s: Seq<char>) -> bool {
    &&& s.len() > 0
    &&& byte_len(s) <= 100
    &&& forall|i: int|
        0 <= i < s.len() ==> is_alphanumeric(#[trigger] s[i]) || s[i] == '_' || s[i] == '.' || s[i]
            == '+' || s[i] == '-'
}

pub open spec fn password_ok(s: Seq<char>) -> bool {
    s.len() > 0 && s.len() <= 512 && !has_control(s)
}

/// The extension an account registers under: the one given, or, when it is
/// left out, the authentication user, which is what the credential vault holds.
pub open spec fn extension_of(extension: Seq<char>, auth_user: Seq<char>) -> Seq<char> {
    if trim(extension).len() == 0 {
        trim(auth_user)
    } else {
        trim(extension)
    }
}

/// Why an account cannot be used, after the white space around its parts is gone.
pub open spec fn account_error(a: Account) -> Option<Seq<char>> {
    let server = trim(a.server@);
    let extension = extension_of(a.extension@, a.auth_user@);
    let auth_user = trim(a.auth_user@);
    if !server_ok(server) || a.port == 0 {
        Some("ACCOUNT_SERVER_INVALID"@)
    } else if !user_ok(extension) || !user_ok(auth_user) {
        Some("ACCOUNT_EXTENSION_INVALID"@)
    } else if !password_ok(a.password@) {
        Some("ACCOUNT_PASSWORD_INVALID"@)
    } else {
        None
    }
}

fn server_fits(s: &str) -> (r: bool)
    ensures
        r == server_ok(s@),
{
    let v = chars_of(s);
    if v.len() == 0 || byte_length(s) > 253 {
        return false;
    }
    let mut i: usize = 0;
    while i < v.len()
        invariant
            i <= v.len(),
            v@ == s@,
            forall|j: int| 0 <= j < i ==> is_alphanumeric(#[trigger] v@[j]) || v@[j] == '.' || v@[j] == '-',
        decreases v.len() - i,
    {
        if !(crate::text::alphanumeric(v[i]) || v[i] == '.' || v[i] == '-') {
            return false;
        }
        i += 1;
    }
    true
}

fn user_fits(s: &str) -> (r: bool)
    ensures
        r == user_ok(s@),
{
    let v = chars_of(s);
    if v.len() == 0 || byte_length(s) > 100 {
        return false;
    }
    let mut i: usize = 0;
    while i < v.len()
        invariant
            i <= v.len(),
            v@ == s@,
            forall|j: int|
                0 <= j < i ==> is_alphanumeric(#[trigger] v@[j]) || v@[j] == '_' || v@[j] == '.'
                    || v@[j] == '+' || v@[j] == '-',
        decreases v.len() - i,
    {
        let c = v[i];
        if !(crate::text::alphanumeric(c) || c == '_' || c == '.' || c == '+' || c == '-') {
            return false;
        }
        i += 1;
    }
    true
}

impl Account {
    /// Takes the white space from around the server, the extension and the
    /// user, puts the user in the place of a missing extension, and checks
    /// the result.
    pub fn validate(&mut self) -> (r: Result<(), String>)
        ensures
            final(self).server@ == trim(old(self).server@),
            final(self).extension@ == extension_of(old(self).extension@, old(self).auth_user@),
            final(self).auth_user@ == trim(old(self).auth_user@),
            final(self).port == old(self).port,
            final(self).password == old(self).password,
            match r {
                Ok(()) => account_error(*old(self)) is None,
                Err(e) => account_error(*old(self)) == Some(e@),
            },
    {
        self.server = string_of(&chars_of(trim_str(self.server.as_str())));
        self.extension = string_of(&chars_of(trim_str(self.extension.as_str())));
        self.auth_user = string_of(&chars_of(trim_str(self.auth_user.as_str())));
        // The extension may be left out: the account then registers under the
        // authentication user, which is the value the credential vault holds.
        if chars_of(self.extension.as_str()).len() == 0 {
            self.extension = self.auth_user.clone();
        }
        if !server_fits(self.server.as_str()) || self.port == 0 {
            return Err(message("ACCOUNT_SERVER_INVALID"));
        }
        if !user_fits(self.extension.as_str()) || !user_fits(self.auth_user.as_str()) {
            return Err(message("ACCOUNT_EXTENSION_INVALID"));
        }
        let p = self.password.as_str();
        if chars_of(p).len() == 0 || chars_of(p).len() > 512 || crate::text::any_control(p) {
            return Err(message("ACCOUNT_PASSWORD_INVALID"));
        }
        Ok(())
    }

    /// What the window may be shown of the account.
    pub fn public(&self) -> (r: AccountView)
        ensures
            r.server == self.server,
            r.port == self.port,
            r.extension == self.extension,
            r.auth_user == self.auth_user,
            r.has_password == (self.password@.len() > 0),
    {
        AccountView {
            server: self.server.clone(),
            port: self.port,
            extension: self.extension.clone(),
            auth_user: self.auth_user.clone(),
            has_password: chars_of(self.password.as_str()).len() > 0,
        }
    }

    /// The account a profile has stored: the address as the registry holds
    /// it, an empty server being the default one and a port that is not a
    /// number the default port, and the user and the password as the
    /// credential vault holds them.
    pub fn stored(server: String, port: &str, extension: String, auth_user: String, password: String) -> (r: Account)
        ensures
            r.server@ == (if server@.len() == 0 {
                DEFAULT_SERVER@
            } else {
                server@
            }),
            r.port == (match parse_u16(port@) {
                Some(p) => p,
                None => DEFAULT_PORT,
            }),
            r.extension == extension,
            r.auth_user == auth_user,
            r.password == password,
    {
        let server = if chars_of(server.as_str()).len() == 0 {
            owned(DEFAULT_SERVER)
        } else {
            server
        };
        let port = match parse_u16_chars(&chars_of(port)) {
            Some(p) => p,
            None => DEFAULT_PORT,
        };
        Account { server, port, extension, auth_user, password }
    }
}

// ---------------------------------------------------------------------
// Where a profile keeps its settings and its password
// ---------------------------------------------------------------------

/// Where a profile keeps its settings in the registry, and the name of its
/// password among the credentials of Windows.
pub struct Store {
    pub key: String,
    pub target: String,
}

/// A test profile's name: `test-` and then letters, digits and hyphens.
pub open spec fn test_profile(p: Seq<char>) -> bool {
    &&& "test-"@.is_prefix_of(p)
    &&& byte_len(p) < 80
    &&& forall|i: int| 0 <= i < p.len() ==> is_alphanumeric(#[trigger] p[i]) || p[i] == '-'
}

pub open spec fn store_key(profile: Option<Seq<char>>) -> Seq<char> {
    match profile {
        Some(p) => if test_profile(p) {
            "Software\\KashiharaCity\\ksip\\Test\\"@ + p
        } else {
            "Software\\KashiharaCity\\ksip"@
        },
        None => "Software\\KashiharaCity\\ksip"@,
    }
}

pub open spec fn store_target(profile: Option<Seq<char>>) -> Seq<char> {
    match profile {
        Some(p) => if test_profile(p) {
            "KSIP/Test/"@ + p
        } else {
            "KSIP/SIP/default"@
        },
        None => "KSIP/SIP/default"@,
    }
}

impl Store {
    /// The store of the profile the tests ask for, when one is asked for and
    /// its name is a test profile's; the person's own store otherwise.
    pub fn for_profile(profile: Option<&str>) -> (r: Self)
        ensures
            r.key@ == store_key(crate::text::opt_view(profile)),
            r.target@ == store_target(crate::text::opt_view(profile)),
    {
        match profile {
            Some(p) => {
                let v = chars_of(p);
                let mut ok = crate::text::starts(&v, &chars_of("test-")) && byte_length(p) < 80;
                let mut i: usize = 0;
                while i < v.len()
                    invariant
                        i <= v.len(),
                        v@ == p@,
                        ok ==> forall|j: int|
                            0 <= j < i ==> is_alphanumeric(#[trigger] v@[j]) || v@[j] == '-',
                        ok ==> "test-"@.is_prefix_of(p@) && byte_len(p@) < 80,
                        !ok ==> !test_profile(p@),
                    decreases v.len() - i,
                {
                    if !(crate::text::alphanumeric(v[i]) || v[i] == '-') {
                        ok = false;
                    }
                    i += 1;
                }
                if ok {
                    let mut key = chars_of("Software\\KashiharaCity\\ksip\\Test\\");
                    extend_str(&mut key, p);
                    let mut target = chars_of("KSIP/Test/");
                    extend_str(&mut target, p);
                    return Store { key: string_of(&key), target: string_of(&target) };
                }
            },
            None => {},
        }
        Store {
            key: owned("Software\\KashiharaCity\\ksip"),
            target: owned("KSIP/SIP/default"),
        }
    }
}

/// The last part of a store's target, which names its profile.
pub open spec fn profile_name_spec(target: Seq<char>) -> Seq<char>
    decreases target.len(),
{
    if target.len() == 0 {
        target
    } else if target.last() == '/' {
        Seq::empty()
    } else {
        profile_name_spec(target.drop_last()).push(target.last())
    }
}

/// The name of the profile a store belongs to: what follows the last `/`
/// of its target.
pub fn profile_name(store: &Store) -> (r: String)
    ensures
        r@ == profile_name_spec(store.target@),
{
    let v = chars_of(store.target.as_str());
    let mut i: usize = v.len();
    while i > 0 && v[i - 1] != '/'
        invariant
            i <= v.len(),
            forall|j: int| i <= j < v.len() ==> v@[j] != '/',
        decreases i,
    {
        i -= 1;
    }
    proof {
        lemma_profile_name(v@, i as int);
    }
    string_of(&crate::text::slice(&v, i, v.len()))
}

proof fn lemma_profile_name(t: Seq<char>, i: int)
    requires
        0 <= i <= t.len(),
        forall|j: int| i <= j < t.len() ==> t[j] != '/',
        i == 0 || t[i - 1] == '/',
    ensures
        profile_name_spec(t) == t.subrange(i, t.len() as int),
    decreases t.len(),
{
    if t.len() > i {
        lemma_profile_name(t.drop_last(), i);
        assert(t.drop_last().subrange(i, t.len() - 1).push(t.last()) =~= t.subrange(i, t.len() as int));
    } else {
        if t.len() > 0 {
            assert(t.last() == '/');
        }
        assert(t.subrange(i, t.len() as int) =~= Seq::<char>::empty());
    }
}

} // verus!
