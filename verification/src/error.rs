//! Why a request was turned down.

use vstd::prelude::*;

verus! {

/// The commands on self-managed channels.
#[derive(Clone, Copy, Debug, PartialEq, Eq, Structural)]
pub enum Command {
    Create,
    Update,
    Claim,
    Delete,
}

/// What was wrong with a request itself.
#[derive(Clone, Copy, Debug, PartialEq, Eq, Structural)]
pub enum Invalid {
    /// The command was not given inside a guild.
    NotInGuild,
    /// The channel belongs to another guild.
    ForeignChannel,
    /// The channel stands under no category.
    NoCategory,
    /// The channel stands under another category than the self-managed one.
    WrongCategory,
    /// No group of roles has the identity that was asked for.
    UnknownAssignment,
    /// The selection did not come from a member of a guild.
    NoMember,
    /// A selected value is not the number of a role.
    MalformedRole,
    /// No page has the file that was asked for.
    UnknownPage,
}

/// Why a request failed. Every failure ends the one request that met it.
#[derive(Clone, Copy, Debug, PartialEq, Eq, Structural)]
pub enum Error {
    /// The request itself was not valid.
    Validation(Invalid),
    /// The user may not do this to the channel.
    Permission(Command),
    /// The platform did not answer within the time allowed.
    Timeout,
    /// The platform refused or failed.
    Remote,
    /// The feature is switched off.
    Configuration,
}

impl Error {
    /// The words in which the user is told of the failure.
    pub open spec fn text(self) -> Seq<char> {
        match self {
            Error::Validation(Invalid::NotInGuild) =>
                "Dieser Befehl kann nur in einem Server ausgeführt werden."@,
            Error::Validation(Invalid::ForeignChannel) => "Dieser Channel ist nicht von diesem Server"@,
            Error::Validation(Invalid::NoCategory) =>
                "Dieser Kanal befindet sich nicht unterhalb einer Kategorie."@,
            Error::Validation(Invalid::WrongCategory) =>
                "Dieser Channel befindet sich nicht in der richtigen Kategorie und kann nicht gelöscht werden."@,
            Error::Validation(Invalid::UnknownAssignment) => "Unknown assignment"@,
            Error::Validation(Invalid::NoMember) => "not executed in guild, no way to assign roles"@,
            Error::Validation(Invalid::MalformedRole) => "selected value is not the number of a role"@,
            Error::Validation(Invalid::UnknownPage) => "Unknown toc file"@,
            Error::Permission(Command::Create) => "Du darfst keinen Kanal erstellen."@,
            Error::Permission(Command::Update) => "Du darfst diesen Kanal nicht bearbeiten."@,
            Error::Permission(Command::Claim) => "Du darfst diesen Kanal nicht übernehmen."@,
            Error::Permission(Command::Delete) => "Du darfst diesen Kanal nicht löschen."@,
            Error::Timeout =>
                "Die Plattform hat nicht rechtzeitig geantwortet. Versuche es später noch einmal."@,
            Error::Remote => "Die Plattform hat die Anfrage abgelehnt."@,
            Error::Configuration => "Kanalübernahmen sind deaktiviert."@,
        }
    }

    /// What the user is told.
    pub fn message(&self) -> (r: String)
        ensures
            r@ == self.text(),
    {
        match *self {
            Error::Validation(Invalid::NotInGuild) =>
                "Dieser Befehl kann nur in einem Server ausgeführt werden.".to_owned(),
            Error::Validation(Invalid::ForeignChannel) =>
                "Dieser Channel ist nicht von diesem Server".to_owned(),
            Error::Validation(Invalid::NoCategory) =>
                "Dieser Kanal befindet sich nicht unterhalb einer Kategorie.".to_owned(),
            Error::Validation(Invalid::WrongCategory) =>
                "Dieser Channel befindet sich nicht in der richtigen Kategorie und kann nicht gelöscht werden.".to_owned(),
            Error::Validation(Invalid::UnknownAssignment) => "Unknown assignment".to_owned(),
            Error::Validation(Invalid::NoMember) =>
                "not executed in guild, no way to assign roles".to_owned(),
            Error::Validation(Invalid::MalformedRole) =>
                "selected value is not the number of a role".to_owned(),
            Error::Validation(Invalid::UnknownPage) => "Unknown toc file".to_owned(),
            Error::Permission(Command::Create) => "Du darfst keinen Kanal erstellen.".to_owned(),
            Error::Permission(Command::Update) => "Du darfst diesen Kanal nicht bearbeiten.".to_owned(),
            Error::Permission(Command::Claim) => "Du darfst diesen Kanal nicht übernehmen.".to_owned(),
            Error::Permission(Command::Delete) => "Du darfst diesen Kanal nicht löschen.".to_owned(),
            Error::Timeout =>
                "Die Plattform hat nicht rechtzeitig geantwortet. Versuche es später noch einmal.".to_owned(),
            Error::Remote => "Die Plattform hat die Anfrage abgelehnt.".to_owned(),
            Error::Configuration => "Kanalübernahmen sind deaktiviert.".to_owned(),
        }
    }

    /// What the user is told, with what the failure is about behind it: the
    /// identity of the group, the file of the page, the value that was
    /// selected.
    pub fn message_about(&self, subject: &str) -> (r: String)
        ensures
            r@ == self.text() + ": "@ + subject@,
    {
        let mut r = self.message();
        r.append(": ");
        r.append(subject);
        r
    }
}

} // verus!
