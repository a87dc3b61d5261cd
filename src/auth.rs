use vstd::prelude::*;

verus! {

/// A user name and password.
pub struct Credentials {
    username: String,
    password: String,
}

impl Credentials {
    pub closed spec fn spec_username(&self) -> Seq<char> {
        self.username@
    }

    pub closed spec fn spec_password(&self) -> Seq<char> {
        self.password@
    }

    pub fn new(username: String, password: String) -> (r: Credentials)
        ensures
            r.spec_username() == username@,
            r.spec_password() == password@,
    {
        Credentials { username, password }
    }

    pub fn username(&self) -> (r: &String)
        ensures
            r@ == self.spec_username(),
    {
        &self.username
    }

    pub fn password(&self) -> (r: &String)
        ensures
            r@ == self.spec_password(),
    {
        &self.password
    }
}

/// The state of the database connection.
#[derive(PartialEq, Eq, Structural, Clone, Copy, Debug)]
pub enum Status {
    Connected,
    Interrupted,
}

/// Connects to the database; this stand-in connection always succeeds.
pub fn connect_database() -> (r: Status)
    ensures
        r == Status::Connected,
{
    Status::Connected
}

} // verus!
