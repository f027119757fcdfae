use vstd::prelude::*;

use crate::compression::Compression;

verus! {

/// The value that the last entry named `name` gives, if any.
pub open spec fn lookup(entries: Seq<(String, String)>, name: Seq<char>) -> Option<Seq<char>>
    decreases entries.len(),
{
    if entries.len() == 0 {
        None
    } else if entries.last().0@ == name {
        Some(entries.last().1@)
    } else {
        lookup(entries.drop_last(), name)
    }
}

/// Where and how to reach the server. Settings, query options and extra
/// headers are kept in the order they were given; a later entry of the same
/// name wins.
pub struct Client {
    url: String,
    database: Option<String>,
    user: Option<String>,
    password: Option<String>,
    compression: Compression,
    options: Vec<(String, String)>,
    headers: Vec<(String, String)>,
}

impl Default for Client {
    fn default() -> (r: Client)
        ensures
            r.url_view() == Seq::<char>::empty(),
            r.database_view() is None,
            r.user_view() is None,
            r.password_view() is None,
            r.compression_view() == Compression::Disabled,
            r.options_view() == Seq::<(String, String)>::empty(),
            r.headers_view() == Seq::<(String, String)>::empty(),
    {
        Client {
            url: String::new(),
            database: None,
            user: None,
            password: None,
            compression: Compression::Disabled,
            options: Vec::new(),
            headers: Vec::new(),
        }
    }
}

impl Client {
    pub closed spec fn url_view(&self) -> Seq<char> {
        self.url@
    }

    pub closed spec fn database_view(&self) -> Option<Seq<char>> {
        match self.database {
            Some(s) => Some(s@),
            None => None,
        }
    }

    pub closed spec fn user_view(&self) -> Option<Seq<char>> {
        match self.user {
            Some(s) => Some(s@),
            None => None,
        }
    }

    pub closed spec fn password_view(&self) -> Option<Seq<char>> {
        match self.password {
            Some(s) => Some(s@),
            None => None,
        }
    }

    pub closed spec fn compression_view(&self) -> Compression {
        self.compression
    }

    pub closed spec fn options_view(&self) -> Seq<(String, String)> {
        self.options@
    }

    pub closed spec fn headers_view(&self) -> Seq<(String, String)> {
        self.headers@
    }

    pub open spec fn same_except_url(&self, o: &Client) -> bool {
        &&& self.database_view() == o.database_view()
        &&& self.user_view() == o.user_view()
        &&& self.password_view() == o.password_view()
        &&& self.compression_view() == o.compression_view()
        &&& self.options_view() == o.options_view()
        &&& self.headers_view() == o.headers_view()
    }

    pub fn with_url(self, url: String) -> (r: Client)
        ensures
            r.url_view() == url@,
            r.same_except_url(&self),
    {
        Client { url, ..self }
    }

    pub fn with_database(self, database: String) -> (r: Client)
        ensures
            r.database_view() == Some(database@),
            r.url_view() == self.url_view(),
            r.user_view() == self.user_view(),
            r.password_view() == self.password_view(),
            r.compression_view() == self.compression_view(),
            r.options_view() == self.options_view(),
            r.headers_view() == self.headers_view(),
    {
        Client { database: Some(database), ..self }
    }

    pub fn with_user(self, user: String) -> (r: Client)
        ensures
            r.user_view() == Some(user@),
            r.url_view() == self.url_view(),
            r.database_view() == self.database_view(),
            r.password_view() == self.password_view(),
            r.compression_view() == self.compression_view(),
            r.options_view() == self.options_view(),
            r.headers_view() == self.headers_view(),
    {
        Client { user: Some(user), ..self }
    }

    pub fn with_password(self, password: String) -> (r: Client)
        ensures
            r.password_view() == Some(password@),
            r.url_view() == self.url_view(),
            r.database_view() == self.database_view(),
            r.user_view() == self.user_view(),
            r.compression_view() == self.compression_view(),
            r.options_view() == self.options_view(),
            r.headers_view() == self.headers_view(),
    {
        Client { password: Some(password), ..self }
    }

    pub fn with_compression(self, compression: Compression) -> (r: Client)
        ensures
            r.compression_view() == compression,
            r.url_view() == self.url_view(),
            r.database_view() == self.database_view(),
            r.user_view() == self.user_view(),
            r.password_view() == self.password_view(),
            r.options_view() == self.options_view(),
            r.headers_view() == self.headers_view(),
    {
        Client { compression, ..self }
    }

    /// Adds a setting sent with every query; it overrides an earlier one of
    /// the same name.
    pub fn with_option(self, name: String, value: String) -> (r: Client)
        ensures
            r.options_view() == self.options_view().push((name, value)),
            lookup(r.options_view(), name@) == Some(value@),
            r.same_except_options(&self),
    {
        let mut c = self;
        c.options.push((name, value));
        c
    }

    /// Adds a header sent with every request; it overrides an earlier one of
    /// the same name.
    pub fn with_header(self, name: String, value: String) -> (r: Client)
        ensures
            r.headers_view() == self.headers_view().push((name, value)),
            lookup(r.headers_view(), name@) == Some(value@),
            r.url_view() == self.url_view(),
            r.database_view() == self.database_view(),
            r.user_view() == self.user_view(),
            r.password_view() == self.password_view(),
            r.compression_view() == self.compression_view(),
            r.options_view() == self.options_view(),
    {
        let mut c = self;
        c.headers.push((name, value));
        c
    }

    pub open spec fn same_except_options(&self, o: &Client) -> bool {
        &&& self.url_view() == o.url_view()
        &&& self.database_view() == o.database_view()
        &&& self.user_view() == o.user_view()
        &&& self.password_view() == o.password_view()
        &&& self.compression_view() == o.compression_view()
        &&& self.headers_view() == o.headers_view()
    }

    pub fn url(&self) -> (r: &String)
        ensures
            r@ == self.url_view(),
    {
        &self.url
    }

    pub fn database(&self) -> (r: Option<&String>)
        ensures
            r matches Some(s) ==> self.database_view() == Some(s@),
            r is None ==> self.database_view() is None,
    {
        self.database.as_ref()
    }

    pub fn user(&self) -> (r: Option<&String>)
        ensures
            r matches Some(s) ==> self.user_view() == Some(s@),
            r is None ==> self.user_view() is None,
    {
        self.user.as_ref()
    }

    pub fn password(&self) -> (r: Option<&String>)
        ensures
            r matches Some(s) ==> self.password_view() == Some(s@),
            r is None ==> self.password_view() is None,
    {
        self.password.as_ref()
    }

    pub fn compression(&self) -> (r: Compression)
        ensures
            r == self.compression_view(),
    {
        self.compression
    }

    /// Settings in the order they were given.
    pub fn options(&self) -> (r: &Vec<(String, String)>)
        ensures
            r@ == self.options_view(),
    {
        &self.options
    }

    /// Extra headers in the order they were given.
    pub fn headers(&self) -> (r: &Vec<(String, String)>)
        ensures
            r@ == self.headers_view(),
    {
        &self.headers
    }

    /// The value of the setting `name`, if one was given.
    pub fn option(&self, name: &String) -> (r: Option<&String>)
        ensures
            match lookup(self.options_view(), name@) {
                Some(v) => r matches Some(s) && s@ == v,
                None => r is None,
            },
    {
        let mut i = self.options.len();
        assert(self.options@.take(i as int) =~= self.options@);
        while i > 0
            invariant
                i <= self.options@.len(),
                lookup(self.options@, name@) == lookup(self.options@.take(i as int), name@),
            decreases i,
        {
            let ghost t = self.options@.take(i as int);
            assert(t.drop_last() =~= self.options@.take(i - 1));
            if self.options[i - 1].0 == *name {
                return Some(&self.options[i - 1].1);
            }
            i = i - 1;
        }
        None
    }
}

} // verus!
