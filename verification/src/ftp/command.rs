//! FTP commands and their wire format.

use vstd::prelude::*;

verus! {

/// Represents an FTP command.
#[derive(Clone, Debug)]
pub enum FtpCommand {
    /// The USER command specifies the user name for authentication.
    User(String),

    /// The PASS command specifies the password for authentication.
    Pass(String),

    /// The SYST command asks for the system type.
    Syst,

    /// The FEAT command lists the features supported by the server.
    Feat,

    /// The PWD command prints the current working directory.
    Pwd,

    /// The TYPE command specifies the type of file to be transferred.
    Type(String),

    /// The PASV command asks the server to enter passive mode.
    Pasv,

    /// The EPSV command asks the server to enter extended passive mode.
    Epsv,

    /// The LIST command lists the files in the current directory.
    List,

    /// The CWD command changes the working directory.
    Cwd(String),

    /// The CDUP command changes to the parent directory.
    Cdup,
}

impl FtpCommand {
    /// Whether this is the LIST command, whose control-channel
    /// acknowledgment may arrive in two separate reply bursts.
    pub fn is_list(&self) -> (r: bool)
        ensures
            r == (*self is List),
    {
        match self {
            FtpCommand::List => true,
            _ => false,
        }
    }
}

/// The exact CRLF-terminated ASCII line that a command puts on the wire.
pub open spec fn spec_format_command(cmd: FtpCommand) -> Seq<char> {
    match cmd {
        FtpCommand::User(username) => "USER "@ + username@ + "\r\n"@,
        FtpCommand::Pass(password) => "PASS "@ + password@ + "\r\n"@,
        FtpCommand::Syst => "SYST\r\n"@,
        FtpCommand::Feat => "FEAT\r\n"@,
        FtpCommand::Pwd => "PWD\r\n"@,
        FtpCommand::Type(t) => "TYPE "@ + t@ + "\r\n"@,
        FtpCommand::Pasv => "PASV\r\n"@,
        FtpCommand::Epsv => "EPSV\r\n"@,
        FtpCommand::List => "LIST\r\n"@,
        FtpCommand::Cwd(path) => "CWD "@ + path@ + "\r\n"@,
        FtpCommand::Cdup => "CDUP\r\n"@,
    }
}

/// Formats a command per the wire grammar: the command word, a space and
/// the argument where one exists, closed by CRLF.
pub fn format_command(cmd: &FtpCommand) -> (r: String)
    ensures
        r@ == spec_format_command(*cmd),
{
    match cmd {
        FtpCommand::User(username) => format_with_arg("USER ", username),
        FtpCommand::Pass(password) => format_with_arg("PASS ", password),
        FtpCommand::Syst => String::from_str("SYST\r\n"),
        FtpCommand::Feat => String::from_str("FEAT\r\n"),
        FtpCommand::Pwd => String::from_str("PWD\r\n"),
        FtpCommand::Type(t) => format_with_arg("TYPE ", t),
        FtpCommand::Pasv => String::from_str("PASV\r\n"),
        FtpCommand::Epsv => String::from_str("EPSV\r\n"),
        FtpCommand::List => String::from_str("LIST\r\n"),
        FtpCommand::Cwd(path) => format_with_arg("CWD ", path),
        FtpCommand::Cdup => String::from_str("CDUP\r\n"),
    }
}

/// Builds `head`, then the argument, then CRLF.
fn format_with_arg(head: &str, arg: &String) -> (r: String)
    ensures
        r@ == head@ + arg@ + "\r\n"@,
{
    let mut s = String::from_str(head);
    s.append(arg.as_str());
    s.append("\r\n");
    s
}

} // verus!
