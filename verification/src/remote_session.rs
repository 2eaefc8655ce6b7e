//! Remote projects: the command that names one, the questions that connecting
//! asks, and the screens that show them.

use ratatui::buffer::Buffer;
use vstd::prelude::*;
use vstd::string::*;
use zeroize::Zeroize;

use crate::geometry::{
    above_zero, coordinate, coordinate_or, greatest, least, Position, Rect,
};
use crate::input::{no_modifiers, only_control, only_shift, KeyCode, KeyEvent, KeyEventKind, KeyModifiers};
use crate::paint::{
    add_modifiers, all_paintable, area_of, buffer_area, buffer_cells, drawn, no_parts, paint,
    plain_style, strokes, style_parts, styled_views, takes, with_modifiers, Paint, Stroke,
    StyleParts, StyledLine, BOLD,
};
use crate::paths::{join, joined};
use crate::text::{
    byte_len, char_len, char_width, chars_of, comes_before, find_char, first_index, holds_char, lemma_first_index,
    lemma_precedes_strict, lemma_precedes_transitive, lemma_utf8_len_push, number_value, optional_text, parse_number, precedes, same_folded, same_ignoring_case,
    same_text, starts, starts_with, string_of, texts, trim, trimmed, utf8_len,
};

verus! {

broadcast use vstd::string::group_string_axioms;

pub const MAX_REMOTE_PROMPT_BYTES: usize = 16_384;

pub const MAX_REMOTE_ARCHIVE_BYTES: u64 = 1_073_741_824;

/// Why a remote command, an answer or an archive is refused.
#[derive(Clone, Debug, PartialEq, Eq)]
pub enum RemoteError {
    NoTransport,
    NotUtf8,
    BadPort,
    BadTimeout,
    PasswordOnCommandLine,
    EnvironmentNeedsPair,
    SshNeedsHostAndPath,
    EmptyHost,
    ZeroPort,
    ZeroTimeout,
    WslNeedsDistroAndPath,
    EmptyDistro,
    ContainerNeedsNameAndPath,
    EmptyContainer,
    PathHoldsNul,
    ResponseTooLarge,
    ArchiveIsNotRegular,
    ArchiveIsEmpty,
    ArchiveTooLarge,
    UnknownTransport(String),
    NeedsValue(String),
    UnknownSshOption(String),
    UnknownWslOption(String),
    UnknownContainerOption(String),
    BadEnvironmentName(String),
    DuplicateEnvironmentName(String),
    PathIsRelative(String),
    ArchiveExtension(String, String),
}

/// The plain values of a [`RemoteError`].
pub enum RemoteFault {
    NoTransport,
    NotUtf8,
    BadPort,
    BadTimeout,
    PasswordOnCommandLine,
    EnvironmentNeedsPair,
    SshNeedsHostAndPath,
    EmptyHost,
    ZeroPort,
    ZeroTimeout,
    WslNeedsDistroAndPath,
    EmptyDistro,
    ContainerNeedsNameAndPath,
    EmptyContainer,
    PathHoldsNul,
    ResponseTooLarge,
    ArchiveIsNotRegular,
    ArchiveIsEmpty,
    ArchiveTooLarge,
    UnknownTransport(Seq<char>),
    NeedsValue(Seq<char>),
    UnknownSshOption(Seq<char>),
    UnknownWslOption(Seq<char>),
    UnknownContainerOption(Seq<char>),
    BadEnvironmentName(Seq<char>),
    DuplicateEnvironmentName(Seq<char>),
    PathIsRelative(Seq<char>),
    ArchiveExtension(Seq<char>, Seq<char>),
}

impl View for RemoteError {
    type V = RemoteFault;

    open spec fn view(&self) -> RemoteFault {
        match *self {
            RemoteError::NoTransport => RemoteFault::NoTransport,
            RemoteError::NotUtf8 => RemoteFault::NotUtf8,
            RemoteError::BadPort => RemoteFault::BadPort,
            RemoteError::BadTimeout => RemoteFault::BadTimeout,
            RemoteError::PasswordOnCommandLine => RemoteFault::PasswordOnCommandLine,
            RemoteError::EnvironmentNeedsPair => RemoteFault::EnvironmentNeedsPair,
            RemoteError::SshNeedsHostAndPath => RemoteFault::SshNeedsHostAndPath,
            RemoteError::EmptyHost => RemoteFault::EmptyHost,
            RemoteError::ZeroPort => RemoteFault::ZeroPort,
            RemoteError::ZeroTimeout => RemoteFault::ZeroTimeout,
            RemoteError::WslNeedsDistroAndPath => RemoteFault::WslNeedsDistroAndPath,
            RemoteError::EmptyDistro => RemoteFault::EmptyDistro,
            RemoteError::ContainerNeedsNameAndPath => RemoteFault::ContainerNeedsNameAndPath,
            RemoteError::EmptyContainer => RemoteFault::EmptyContainer,
            RemoteError::PathHoldsNul => RemoteFault::PathHoldsNul,
            RemoteError::ResponseTooLarge => RemoteFault::ResponseTooLarge,
            RemoteError::ArchiveIsNotRegular => RemoteFault::ArchiveIsNotRegular,
            RemoteError::ArchiveIsEmpty => RemoteFault::ArchiveIsEmpty,
            RemoteError::ArchiveTooLarge => RemoteFault::ArchiveTooLarge,
            RemoteError::UnknownTransport(text) => RemoteFault::UnknownTransport(text@),
            RemoteError::NeedsValue(text) => RemoteFault::NeedsValue(text@),
            RemoteError::UnknownSshOption(text) => RemoteFault::UnknownSshOption(text@),
            RemoteError::UnknownWslOption(text) => RemoteFault::UnknownWslOption(text@),
            RemoteError::UnknownContainerOption(text) => RemoteFault::UnknownContainerOption(text@),
            RemoteError::BadEnvironmentName(text) => RemoteFault::BadEnvironmentName(text@),
            RemoteError::DuplicateEnvironmentName(text) => RemoteFault::DuplicateEnvironmentName(text@),
            RemoteError::PathIsRelative(text) => RemoteFault::PathIsRelative(text@),
            RemoteError::ArchiveExtension(wanted, path) => RemoteFault::ArchiveExtension(wanted@, path@),
        }
    }
}

impl RemoteFault {
    /// The fault in words.
    pub open spec fn text(self) -> Seq<char> {
        match self {
            RemoteFault::NoTransport => "remote requires one of: ssh, wsl, container"@,
            RemoteFault::NotUtf8 => "remote arguments must be UTF-8"@,
            RemoteFault::BadPort => "--port must be an integer from 1 through 65535"@,
            RemoteFault::BadTimeout => "--timeout must be an integer number of seconds"@,
            RemoteFault::PasswordOnCommandLine => "passwords are never accepted on the command line"@,
            RemoteFault::EnvironmentNeedsPair => "--env requires NAME=VALUE"@,
            RemoteFault::SshNeedsHostAndPath => "remote ssh requires HOST PATH [PATH ...]"@,
            RemoteFault::EmptyHost => "SSH host cannot be empty"@,
            RemoteFault::ZeroPort => "--port must be greater than zero"@,
            RemoteFault::ZeroTimeout => "--timeout must be greater than zero"@,
            RemoteFault::WslNeedsDistroAndPath => "remote wsl requires DISTRO PATH [PATH ...]"@,
            RemoteFault::EmptyDistro => "WSL distribution cannot be empty"@,
            RemoteFault::ContainerNeedsNameAndPath => "remote container requires NAME PATH [PATH ...]"@,
            RemoteFault::EmptyContainer => "container name cannot be empty"@,
            RemoteFault::PathHoldsNul => "remote path contains NUL"@,
            RemoteFault::ResponseTooLarge => "remote authentication response is too large"@,
            RemoteFault::ArchiveIsNotRegular => "remote server archive is not a regular file"@,
            RemoteFault::ArchiveIsEmpty => "remote server archive is empty"@,
            RemoteFault::ArchiveTooLarge => "remote server archive is too large"@,
            RemoteFault::UnknownTransport(text) => "unknown remote transport: "@ + text,
            RemoteFault::NeedsValue(text) => text + " requires a value"@,
            RemoteFault::UnknownSshOption(text) => "unknown ssh remote option: "@ + text,
            RemoteFault::UnknownWslOption(text) => "unknown WSL remote option: "@ + text,
            RemoteFault::UnknownContainerOption(text) => "unknown container remote option: "@ + text,
            RemoteFault::BadEnvironmentName(text) => "invalid environment name: "@ + text,
            RemoteFault::DuplicateEnvironmentName(text) => "duplicate remote environment name: "@ + text,
            RemoteFault::PathIsRelative(text) => "remote path must be absolute: "@ + text,
            RemoteFault::ArchiveExtension(wanted, path) => "remote server archive must use ."@ + wanted
                + ": "@ + path,
        }
    }
}

fn worded(front: &str, text: &str, back: &str) -> (result: String)
    ensures
        result@ == front@ + text@ + back@,
{
    let mut result = front.to_string();
    result.append(text);
    result.append(back);
    result
}

impl RemoteError {
    /// The error in words.
    pub fn message(&self) -> (message: String)
        ensures
            message@ == self@.text(),
    {
        proof {
            reveal_strlit("");
            assert(forall|s: Seq<char>| s + ""@ =~= s);
            assert(forall|s: Seq<char>| ""@ + s =~= s);
        }
        match self {
            RemoteError::NoTransport => "remote requires one of: ssh, wsl, container".to_string(),
            RemoteError::NotUtf8 => "remote arguments must be UTF-8".to_string(),
            RemoteError::BadPort => "--port must be an integer from 1 through 65535".to_string(),
            RemoteError::BadTimeout => "--timeout must be an integer number of seconds".to_string(),
            RemoteError::PasswordOnCommandLine => "passwords are never accepted on the command line".to_string(),
            RemoteError::EnvironmentNeedsPair => "--env requires NAME=VALUE".to_string(),
            RemoteError::SshNeedsHostAndPath => "remote ssh requires HOST PATH [PATH ...]".to_string(),
            RemoteError::EmptyHost => "SSH host cannot be empty".to_string(),
            RemoteError::ZeroPort => "--port must be greater than zero".to_string(),
            RemoteError::ZeroTimeout => "--timeout must be greater than zero".to_string(),
            RemoteError::WslNeedsDistroAndPath => "remote wsl requires DISTRO PATH [PATH ...]".to_string(),
            RemoteError::EmptyDistro => "WSL distribution cannot be empty".to_string(),
            RemoteError::ContainerNeedsNameAndPath => "remote container requires NAME PATH [PATH ...]".to_string(),
            RemoteError::EmptyContainer => "container name cannot be empty".to_string(),
            RemoteError::PathHoldsNul => "remote path contains NUL".to_string(),
            RemoteError::ResponseTooLarge => "remote authentication response is too large".to_string(),
            RemoteError::ArchiveIsNotRegular => "remote server archive is not a regular file".to_string(),
            RemoteError::ArchiveIsEmpty => "remote server archive is empty".to_string(),
            RemoteError::ArchiveTooLarge => "remote server archive is too large".to_string(),
            RemoteError::UnknownTransport(text) => worded("unknown remote transport: ", text.as_str(), ""),
            RemoteError::NeedsValue(text) => worded("", text.as_str(), " requires a value"),
            RemoteError::UnknownSshOption(text) => worded("unknown ssh remote option: ", text.as_str(), ""),
            RemoteError::UnknownWslOption(text) => worded("unknown WSL remote option: ", text.as_str(), ""),
            RemoteError::UnknownContainerOption(text) => worded("unknown container remote option: ", text.as_str(), ""),
            RemoteError::BadEnvironmentName(text) => worded("invalid environment name: ", text.as_str(), ""),
            RemoteError::DuplicateEnvironmentName(text) => worded("duplicate remote environment name: ", text.as_str(), ""),
            RemoteError::PathIsRelative(text) => worded("remote path must be absolute: ", text.as_str(), ""),
            RemoteError::ArchiveExtension(wanted, path) => {
                let mut text = "remote server archive must use .".to_string();
                text.append(wanted.as_str());
                text.append(": ");
                text.append(path.as_str());
                text
            },
        }
    }
}

/// The fault of a result, if it has one.
pub open spec fn refusal<T>(result: Result<T, RemoteError>) -> Option<RemoteFault> {
    match result {
        Ok(_) => None,
        Err(error) => Some(error@),
    }
}

/// An argument of a remote command.
pub enum Argument {
    /// A word that is no option.
    Word(String),
    /// An option by itself.
    Flag(String),
    /// An option with the argument after it.
    Valued(String, String),
    /// An option that no argument follows.
    Bare(String),
}

/// The plain values of an [`Argument`].
pub enum Token {
    Word(Seq<char>),
    Flag(Seq<char>),
    Valued(Seq<char>, Seq<char>),
    Bare(Seq<char>),
}

impl View for Argument {
    type V = Token;

    open spec fn view(&self) -> Token {
        match *self {
            Argument::Word(text) => Token::Word(text@),
            Argument::Flag(name) => Token::Flag(name@),
            Argument::Valued(name, value) => Token::Valued(name@, value@),
            Argument::Bare(name) => Token::Bare(name@),
        }
    }
}

pub open spec fn tokens(list: Seq<Argument>) -> Seq<Token> {
    Seq::new(list.len(), |i: int| list[i]@)
}

/// How a project is reached.
#[derive(Clone, Copy, Debug, PartialEq, Eq, Structural)]
pub enum Transport {
    Ssh,
    Wsl,
    Container,
}

/// Whether an option takes the argument after it.
pub open spec fn takes_value(transport: Transport, name: Seq<char>) -> bool {
    match transport {
        Transport::Ssh => name == "--user"@ || name == "--port"@ || name == "--arg"@ || name
            == "--timeout"@ || name == "--nickname"@,
        Transport::Wsl => name == "--user"@,
        Transport::Container => name == "--id"@ || name == "--user"@ || name == "--env"@,
    }
}

/// The arguments of a command: options start with a dash, up to one that is
/// two dashes, and some take the argument after them.
pub open spec fn parsed(transport: Transport, list: Seq<Seq<char>>, words_only: bool) -> Seq<Token>
    decreases list.len(),
{
    if list.len() == 0 {
        Seq::empty()
    } else if !words_only && list[0] == "--"@ {
        parsed(transport, list.drop_first(), true)
    } else if !words_only && starts(list[0], "-"@) {
        if !takes_value(transport, list[0]) {
            seq![Token::Flag(list[0])] + parsed(transport, list.drop_first(), false)
        } else if list.len() == 1 {
            seq![Token::Bare(list[0])]
        } else {
            seq![Token::Valued(list[0], list[1])] + parsed(transport, list.skip(2), false)
        }
    } else {
        seq![Token::Word(list[0])] + parsed(transport, list.drop_first(), words_only)
    }
}

fn wants_value(transport: Transport, name: &str) -> (result: bool)
    ensures
        result == takes_value(transport, name@),
{
    match transport {
        Transport::Ssh => same_text(name, "--user") || same_text(name, "--port") || same_text(
            name,
            "--arg",
        ) || same_text(name, "--timeout") || same_text(name, "--nickname"),
        Transport::Wsl => same_text(name, "--user"),
        Transport::Container => same_text(name, "--id") || same_text(name, "--user") || same_text(
            name,
            "--env",
        ),
    }
}

/// The argument after an option. The index moves on to it.
pub fn take_value(arguments: &Vec<String>, index: &mut usize) -> (value: Option<String>)
    requires
        *old(index) < arguments@.len(),
    ensures
        *final(index) == *old(index) + 1,
        match value {
            Some(value) => *old(index) + 1 < arguments@.len() && value@ == arguments@[*old(index)
                + 1]@,
            None => *old(index) + 1 == arguments@.len(),
        },
{
    let count: usize = arguments.len();
    *index = *index + 1;
    if *index < count {
        Some(arguments[*index].clone())
    } else {
        None
    }
}

fn parse_arguments(transport: Transport, arguments: &Vec<String>) -> (result: Vec<Argument>)
    ensures
        tokens(result@) == parsed(transport, texts(arguments@), false),
{
    let ghost all = texts(arguments@);
    let mut result: Vec<Argument> = Vec::new();
    let mut words_only = false;
    let mut index: usize = 0;
    assert(all.skip(0) =~= all);
    assert(tokens(result@) + parsed(transport, all, false) =~= parsed(transport, all, false));
    while index < arguments.len()
        invariant
            index <= arguments@.len(),
            all == texts(arguments@),
            parsed(transport, all, false) == tokens(result@) + parsed(
                transport,
                all.skip(index as int),
                words_only,
            ),
        decreases arguments@.len() - index,
    {
        let argument = arguments[index].as_str();
        let ghost rest = all.skip(index as int);
        let ghost before = tokens(result@);
        proof {
            assert(rest[0] == argument@);
            assert(rest.drop_first() =~= all.skip(index + 1));
        }
        if !words_only && same_text(argument, "--") {
            words_only = true;
        } else if !words_only && starts_with(argument, "-") {
            if wants_value(transport, argument) {
                let name = argument.to_string();
                match take_value(arguments, &mut index) {
                    Some(value) => {
                        proof {
                            assert(rest[1] == value@);
                            assert(rest.skip(2) =~= all.skip(index + 1));
                        }
                        result.push(Argument::Valued(name, value));
                        assert(tokens(result@) =~= before.push(Token::Valued(name@, value@)));
                        assert(before + (seq![Token::Valued(name@, value@)] + parsed(
                            transport,
                            all.skip(index + 1),
                            false,
                        )) =~= tokens(result@) + parsed(transport, all.skip(index + 1), false));
                    },
                    None => {
                        result.push(Argument::Bare(name));
                        assert(tokens(result@) =~= before + seq![Token::Bare(name@)]);
                        return result;
                    },
                }
            } else {
                result.push(Argument::Flag(argument.to_string()));
                assert(tokens(result@) =~= before.push(Token::Flag(argument@)));
                assert(before + (seq![Token::Flag(argument@)] + parsed(
                    transport,
                    all.skip(index + 1),
                    false,
                )) =~= tokens(result@) + parsed(transport, all.skip(index + 1), false));
            }
        } else {
            result.push(Argument::Word(argument.to_string()));
            assert(tokens(result@) =~= before.push(Token::Word(argument@)));
            assert(before + (seq![Token::Word(argument@)] + parsed(
                transport,
                all.skip(index + 1),
                words_only,
            )) =~= tokens(result@) + parsed(transport, all.skip(index + 1), words_only));
        }
        index += 1;
    }
    assert(tokens(result@) =~= tokens(result@) + parsed(
        transport,
        all.skip(index as int),
        words_only,
    ));
    result
}

/// Reads a number of at most 65535.
pub fn parse_u16(s: &str) -> (number: Option<u16>)
    ensures
        match number {
            Some(number) => number_value(s@, 65535) == Some(number as nat),
            None => number_value(s@, 65535) is None,
        },
{
    match parse_number(s, 65535) {
        Some(number) => Some(number as u16),
        None => None,
    }
}

/// Whether a path names a drive or starts at a root, as Windows writes it.
pub open spec fn windows_absolute(path: Seq<char>) -> bool {
    ||| path.len() > 0 && (path[0] == '\\' || path[0] == '/')
    ||| path.len() > 2 && ascii_letter(path[0]) && path[1] == ':' && (path[2] == '\\' || path[2]
        == '/')
}

pub open spec fn ascii_letter(c: char) -> bool {
    'a' <= c <= 'z' || 'A' <= c <= 'Z'
}

/// Whether a path names a drive or starts at a root, as Windows writes it.
pub fn is_windows_absolute(path: &str) -> (result: bool)
    ensures
        result == windows_absolute(path@),
{
    let chars = chars_of(path);
    if chars.len() > 0 && (chars[0] == '\\' || chars[0] == '/') {
        return true;
    }
    if chars.len() <= 2 {
        return false;
    }
    let first = chars[0];
    let letter = first >= 'a' && first <= 'z' || first >= 'A' && first <= 'Z';
    letter && chars[1] == ':' && (chars[2] == '\\' || chars[2] == '/')
}

/// Which paths a remote project takes.
#[derive(Clone, Copy, Debug, PartialEq, Eq, Structural)]
pub enum RemotePathRequirement {
    Unix,
    Either,
}

/// What is wrong with a path of a remote project.
pub open spec fn path_fault(
    path: Seq<char>,
    requirement: RemotePathRequirement,
) -> Option<RemoteFault> {
    if path.contains('\0') {
        Some(RemoteFault::PathHoldsNul)
    } else if path.len() > 0 && path[0] == '/' || requirement == RemotePathRequirement::Either
        && windows_absolute(path) {
        None
    } else {
        Some(RemoteFault::PathIsRelative(path))
    }
}

/// The first thing that is wrong with the paths.
pub open spec fn paths_fault(
    paths: Seq<Seq<char>>,
    requirement: RemotePathRequirement,
) -> Option<RemoteFault>
    decreases paths.len(),
{
    if paths.len() == 0 {
        None
    } else if path_fault(paths[0], requirement) is Some {
        path_fault(paths[0], requirement)
    } else {
        paths_fault(paths.drop_first(), requirement)
    }
}

/// The paths behind the first word, where they are all in order.
pub fn validated_remote_paths(words: &Vec<String>, requirement: RemotePathRequirement) -> (result:
    Result<Vec<String>, RemoteError>)
    requires
        words@.len() > 0,
    ensures
        refusal(result) == paths_fault(texts(words@).drop_first(), requirement),
        result matches Ok(paths) ==> texts(paths@) == texts(words@).drop_first(),
{
    let ghost all = texts(words@).drop_first();
    let mut paths: Vec<String> = Vec::new();
    let mut i: usize = 1;
    assert(all.skip(0) =~= all);
    assert(texts(paths@) =~= all.take(0));
    while i < words.len()
        invariant
            1 <= i <= words@.len(),
            all == texts(words@).drop_first(),
            texts(paths@) == all.take(i - 1),
            paths_fault(all, requirement) == paths_fault(all.skip(i - 1), requirement),
        decreases words@.len() - i,
    {
        let path = words[i].as_str();
        let ghost rest = all.skip(i - 1);
        proof {
            assert(rest[0] == path@);
            assert(rest.drop_first() =~= all.skip(i as int));
        }
        if holds_char(path, '\0') {
            return Err(RemoteError::PathHoldsNul);
        }
        proof {
            reveal_strlit("/");
            assert(starts(path@, "/"@) == (path@.len() > 0 && path@[0] == '/')) by {
                if path@.len() > 0 {
                    assert(path@.take(1)[0] == path@[0]);
                    if path@[0] == '/' {
                        assert(path@.take(1) =~= "/"@);
                    }
                }
            }
        }
        let unix = starts_with(path, "/");
        let fine = match requirement {
            RemotePathRequirement::Unix => unix,
            RemotePathRequirement::Either => unix || is_windows_absolute(path),
        };
        if !fine {
            return Err(RemoteError::PathIsRelative(words[i].clone()));
        }
        let ghost before = texts(paths@);
        paths.push(words[i].clone());
        proof {
            assert(all[i - 1] == path@);
            assert(texts(paths@) =~= before.push(path@));
            assert(all.take(i as int) =~= all.take(i - 1).push(all[i - 1]));
        }
        i += 1;
    }
    proof {
        assert(all.skip(i - 1) =~= Seq::<Seq<char>>::empty());
        assert(all.take(i - 1) =~= all);
    }
    Ok(paths)
}

/// A connection over SSH. A password is asked for, never given here.
#[derive(Clone, Debug, PartialEq, Eq)]
pub struct SshConnectionOptions {
    pub host: String,
    pub username: Option<String>,
    pub port: Option<u16>,
    pub password: Option<String>,
    pub args: Option<Vec<String>>,
    /// Ports that are forwarded; no command asks for any.
    pub port_forwards: Option<Vec<String>>,
    pub connection_timeout: Option<u16>,
    pub nickname: Option<String>,
    pub upload_binary_over_ssh: bool,
}

/// What the options of an SSH command say.
pub struct SshDraft {
    pub username: Option<Seq<char>>,
    pub port: Option<u16>,
    pub args: Seq<Seq<char>>,
    pub timeout: Option<u16>,
    pub nickname: Option<Seq<char>>,
    pub upload: bool,
    pub words: Seq<Seq<char>>,
}

/// A command with one more argument.
pub open spec fn ssh_argument(draft: SshDraft, token: Token) -> Result<SshDraft, RemoteFault> {
    match token {
        Token::Word(word) => Ok(SshDraft { words: draft.words.push(word), ..draft }),
        Token::Bare(name) => Err(RemoteFault::NeedsValue(name)),
        Token::Flag(name) => if name == "--no-upload"@ {
            Ok(SshDraft { upload: false, ..draft })
        } else if name == "--password"@ {
            Err(RemoteFault::PasswordOnCommandLine)
        } else {
            Err(RemoteFault::UnknownSshOption(name))
        },
        Token::Valued(name, value) => if name == "--user"@ {
            Ok(SshDraft { username: Some(value), ..draft })
        } else if name == "--port"@ {
            match number_value(value, 65535) {
                Some(port) => Ok(SshDraft { port: Some(port as u16), ..draft }),
                None => Err(RemoteFault::BadPort),
            }
        } else if name == "--arg"@ {
            Ok(SshDraft { args: draft.args.push(value), ..draft })
        } else if name == "--timeout"@ {
            match number_value(value, 65535) {
                Some(timeout) => Ok(SshDraft { timeout: Some(timeout as u16), ..draft }),
                None => Err(RemoteFault::BadTimeout),
            }
        } else {
            Ok(SshDraft { nickname: Some(value), ..draft })
        },
    }
}

/// What the arguments of an SSH command say.
pub open spec fn ssh_draft(list: Seq<Token>) -> Result<SshDraft, RemoteFault>
    decreases list.len(),
{
    if list.len() == 0 {
        Ok(
            SshDraft {
                username: None,
                port: None,
                args: Seq::empty(),
                timeout: None,
                nickname: None,
                upload: true,
                words: Seq::empty(),
            },
        )
    } else {
        match ssh_draft(list.drop_last()) {
            Ok(draft) => ssh_argument(draft, list.last()),
            Err(fault) => Err(fault),
        }
    }
}

proof fn lemma_ssh_fault_stays(list: Seq<Token>, count: int)
    requires
        0 <= count <= list.len(),
        ssh_draft(list.take(count)) is Err,
    ensures
        ssh_draft(list) == ssh_draft(list.take(count)),
    decreases list.len(),
{
    if count == list.len() {
        assert(list.take(count) =~= list);
    } else {
        assert(list.drop_last().take(count) =~= list.take(count));
        lemma_ssh_fault_stays(list.drop_last(), count);
    }
}

/// What is wrong with an SSH command.
pub open spec fn ssh_fault(list: Seq<Token>) -> Option<RemoteFault> {
    match ssh_draft(list) {
        Err(fault) => Some(fault),
        Ok(draft) => if draft.words.len() < 2 {
            Some(RemoteFault::SshNeedsHostAndPath)
        } else if trimmed(draft.words[0]).len() == 0 {
            Some(RemoteFault::EmptyHost)
        } else if draft.port == Some(0u16) {
            Some(RemoteFault::ZeroPort)
        } else if draft.timeout == Some(0u16) {
            Some(RemoteFault::ZeroTimeout)
        } else {
            paths_fault(draft.words.drop_first(), RemotePathRequirement::Either)
        },
    }
}

struct SshCommand {
    username: Option<String>,
    port: Option<u16>,
    args: Vec<String>,
    timeout: Option<u16>,
    nickname: Option<String>,
    upload: bool,
    words: Vec<String>,
}

impl View for SshCommand {
    type V = SshDraft;

    closed spec fn view(&self) -> SshDraft {
        SshDraft {
            username: optional_text(self.username),
            port: self.port,
            args: texts(self.args@),
            timeout: self.timeout,
            nickname: optional_text(self.nickname),
            upload: self.upload,
            words: texts(self.words@),
        }
    }
}

impl SshCommand {
    fn read(&mut self, argument: &Argument) -> (result: Result<(), RemoteError>)
        ensures
            match result {
                Ok(()) => ssh_argument(old(self)@, argument@) == Ok::<SshDraft, RemoteFault>(
                    final(self)@,
                ),
                Err(error) => ssh_argument(old(self)@, argument@) == Err::<SshDraft, RemoteFault>(
                    error@,
                ),
            },
    {
        let ghost before = self@;
        match argument {
            Argument::Word(word) => {
                self.words.push(word.clone());
                assert(texts(self.words@) =~= before.words.push(word@));
                Ok(())
            },
            Argument::Bare(name) => Err(RemoteError::NeedsValue(name.clone())),
            Argument::Flag(name) => if same_text(name.as_str(), "--no-upload") {
                self.upload = false;
                Ok(())
            } else if same_text(name.as_str(), "--password") {
                Err(RemoteError::PasswordOnCommandLine)
            } else {
                Err(RemoteError::UnknownSshOption(name.clone()))
            },
            Argument::Valued(name, value) => if same_text(name.as_str(), "--user") {
                self.username = Some(value.clone());
                Ok(())
            } else if same_text(name.as_str(), "--port") {
                match parse_u16(value.as_str()) {
                    Some(port) => {
                        self.port = Some(port);
                        Ok(())
                    },
                    None => Err(RemoteError::BadPort),
                }
            } else if same_text(name.as_str(), "--arg") {
                self.args.push(value.clone());
                assert(texts(self.args@) =~= before.args.push(value@));
                Ok(())
            } else if same_text(name.as_str(), "--timeout") {
                match parse_u16(value.as_str()) {
                    Some(timeout) => {
                        self.timeout = Some(timeout);
                        Ok(())
                    },
                    None => Err(RemoteError::BadTimeout),
                }
            } else {
                self.nickname = Some(value.clone());
                Ok(())
            },
        }
    }
}

/// A connection to a distribution of the Windows Subsystem for Linux.
#[derive(Clone, Debug, PartialEq, Eq)]
pub struct WslConnectionOptions {
    pub distro_name: String,
    pub user: Option<String>,
}

/// A connection to a container.
#[derive(Clone, Debug, PartialEq, Eq)]
pub struct DockerConnectionOptions {
    pub name: String,
    pub container_id: String,
    pub remote_user: String,
    pub upload_binary_over_docker_exec: bool,
    pub use_podman: bool,
    pub remote_env: Vec<(String, String)>,
}

#[derive(Clone, Debug, PartialEq, Eq)]
pub enum RemoteConnectionOptions {
    Ssh(SshConnectionOptions),
    Wsl(WslConnectionOptions),
    Docker(DockerConnectionOptions),
}

/// A project that is to be opened: how it is reached, and where it lies.
#[derive(Clone, Debug, PartialEq, Eq)]
pub struct RemoteRequest {
    pub options: RemoteConnectionOptions,
    pub paths: Vec<String>,
}

/// The texts of some pairs.
pub open spec fn pairs(list: Seq<(String, String)>) -> Seq<(Seq<char>, Seq<char>)> {
    Seq::new(list.len(), |i: int| (list[i].0@, list[i].1@))
}

fn read_ssh(list: &Vec<Argument>) -> (result: Result<SshCommand, RemoteError>)
    ensures
        match result {
            Ok(command) => ssh_draft(tokens(list@)) == Ok::<SshDraft, RemoteFault>(command@),
            Err(error) => ssh_draft(tokens(list@)) == Err::<SshDraft, RemoteFault>(error@),
        },
{
    let ghost all = tokens(list@);
    let mut command = SshCommand {
        username: None,
        port: None,
        args: Vec::new(),
        timeout: None,
        nickname: None,
        upload: true,
        words: Vec::new(),
    };
    let mut i: usize = 0;
    proof {
        assert(all.take(0) =~= Seq::<Token>::empty());
        assert(texts(command.args@) =~= Seq::<Seq<char>>::empty());
        assert(texts(command.words@) =~= Seq::<Seq<char>>::empty());
    }
    while i < list.len()
        invariant
            i <= list@.len(),
            all == tokens(list@),
            ssh_draft(all.take(i as int)) == Ok::<SshDraft, RemoteFault>(command@),
        decreases list@.len() - i,
    {
        proof {
            assert(all.take(i + 1).drop_last() =~= all.take(i as int));
            assert(all.take(i + 1).last() == list@[i as int]@);
        }
        match command.read(&list[i]) {
            Ok(()) => {},
            Err(error) => {
                proof {
                    lemma_ssh_fault_stays(all, i + 1);
                }
                return Err(error);
            },
        }
        i += 1;
    }
    assert(all.take(i as int) =~= all);
    Ok(command)
}

/// What the options of a container command say.
pub struct ContainerDraft {
    pub id: Option<Seq<char>>,
    pub user: Option<Seq<char>>,
    pub podman: bool,
    pub upload: bool,
    pub env: Seq<(Seq<char>, Seq<char>)>,
    pub words: Seq<Seq<char>>,
}

/// Whether a text may name a variable of the environment.
pub open spec fn environment_name(name: Seq<char>) -> bool {
    &&& name.len() > 0
    &&& name[0] == '_' || ascii_letter(name[0])
    &&& forall|i: int|
        0 < i < name.len() ==> (#[trigger] name[i]) == '_' || ascii_letter(name[i]) || '0'
            <= name[i] <= '9'
}

/// Whether a text may name a variable of the environment.
pub fn valid_environment_name(name: &str) -> (result: bool)
    ensures
        result == environment_name(name@),
{
    let chars = chars_of(name);
    if chars.len() == 0 {
        return false;
    }
    let mut i: usize = 0;
    while i < chars.len()
        invariant
            i <= chars@.len(),
            chars@ == name@,
            chars@.len() > 0,
            i > 0 ==> name@[0] == '_' || ascii_letter(name@[0]),
            forall|k: int|
                0 < k < i ==> (#[trigger] name@[k]) == '_' || ascii_letter(name@[k]) || '0'
                    <= name@[k] <= '9',
        decreases chars@.len() - i,
    {
        let c = chars[i];
        let letter = c == '_' || c >= 'a' && c <= 'z' || c >= 'A' && c <= 'Z';
        let fine = letter || i > 0 && c >= '0' && c <= '9';
        if !fine {
            assert(c == name@[i as int]);
            return false;
        }
        i += 1;
    }
    true
}

/// Whether a variable was given before.
pub open spec fn has_name(env: Seq<(Seq<char>, Seq<char>)>, name: Seq<char>) -> bool {
    exists|i: int| 0 <= i < env.len() && (#[trigger] env[i]).0 == name
}

/// The place of a variable among those in the order of their names.
pub open spec fn place_of(env: Seq<(Seq<char>, Seq<char>)>, name: Seq<char>) -> int
    decreases env.len(),
{
    if env.len() == 0 {
        0
    } else if precedes(env.last().0, name) {
        env.len() as int
    } else {
        place_of(env.drop_last(), name)
    }
}

/// A command with one more variable of the environment.
pub open spec fn with_variable(draft: ContainerDraft, pair: Seq<char>) -> Result<
    ContainerDraft,
    RemoteFault,
> {
    let at = first_index(pair, '=');
    let name = pair.take(at);
    if at >= pair.len() {
        Err(RemoteFault::EnvironmentNeedsPair)
    } else if !environment_name(name) {
        Err(RemoteFault::BadEnvironmentName(name))
    } else if has_name(draft.env, name) {
        Err(RemoteFault::DuplicateEnvironmentName(name))
    } else {
        Ok(
            ContainerDraft {
                env: draft.env.insert(place_of(draft.env, name), (name, pair.skip(at + 1))),
                ..draft
            },
        )
    }
}

/// A command with one more argument.
pub open spec fn container_argument(draft: ContainerDraft, token: Token) -> Result<
    ContainerDraft,
    RemoteFault,
> {
    match token {
        Token::Word(word) => Ok(ContainerDraft { words: draft.words.push(word), ..draft }),
        Token::Bare(name) => Err(RemoteFault::NeedsValue(name)),
        Token::Flag(name) => if name == "--podman"@ {
            Ok(ContainerDraft { podman: true, ..draft })
        } else if name == "--docker"@ {
            Ok(ContainerDraft { podman: false, ..draft })
        } else if name == "--no-upload"@ {
            Ok(ContainerDraft { upload: false, ..draft })
        } else {
            Err(RemoteFault::UnknownContainerOption(name))
        },
        Token::Valued(name, value) => if name == "--id"@ {
            Ok(ContainerDraft { id: Some(value), ..draft })
        } else if name == "--user"@ {
            Ok(ContainerDraft { user: Some(value), ..draft })
        } else {
            with_variable(draft, value)
        },
    }
}

/// The variables are named once, in the order of their names.
pub open spec fn named_in_order(env: Seq<(Seq<char>, Seq<char>)>) -> bool {
    forall|i: int, j: int|
        0 <= i < j < env.len() ==> precedes((#[trigger] env[i]).0, (#[trigger] env[j]).0)
}

proof fn lemma_place(env: Seq<(Seq<char>, Seq<char>)>, name: Seq<char>)
    requires
        named_in_order(env),
        !has_name(env, name),
    ensures
        0 <= place_of(env, name) <= env.len(),
        forall|i: int|
            0 <= i < place_of(env, name) ==> precedes((#[trigger] env[i]).0, name),
        forall|i: int|
            place_of(env, name) <= i < env.len() ==> precedes(name, (#[trigger] env[i]).0),
    decreases env.len(),
{
    if env.len() > 0 {
        let last = env.last();
        assert(env[env.len() - 1] == last);
        lemma_precedes_strict(last.0, name);
        if precedes(last.0, name) {
            assert forall|i: int| 0 <= i < env.len() implies precedes((#[trigger] env[i]).0, name) by {
                if i < env.len() - 1 {
                    lemma_precedes_transitive(env[i].0, last.0, name);
                }
            }
        } else {
            let rest = env.drop_last();
            assert(forall|i: int| 0 <= i < rest.len() ==> (#[trigger] rest[i]) == env[i]);
            lemma_place(rest, name);
            assert forall|i: int| place_of(env, name) <= i < env.len() implies precedes(
                name,
                (#[trigger] env[i]).0,
            ) by {
                if i < env.len() - 1 {
                    assert(rest[i] == env[i]);
                }
            }
            assert forall|i: int| 0 <= i < place_of(env, name) implies precedes(
                (#[trigger] env[i]).0,
                name,
            ) by {
                assert(rest[i] == env[i]);
            }
        }
    }
}

/// However a container command is written, its variables are named once, in
/// the order of their names, and each name is one that a variable may have.
pub proof fn variables_are_named_once(list: Seq<Token>, podman: bool)
    ensures
        container_draft(list, podman) matches Ok(draft) ==> named_in_order(draft.env) && forall|
            i: int,
        |
            0 <= i < draft.env.len() ==> environment_name((#[trigger] draft.env[i]).0),
    decreases list.len(),
{
    if list.len() > 0 {
        variables_are_named_once(list.drop_last(), podman);
        if let (Ok(draft), Token::Valued(_, pair)) = (
            container_draft(list.drop_last(), podman),
            list.last(),
        ) {
            let name = pair.take(first_index(pair, '='));
            if !has_name(draft.env, name) {
                lemma_place(draft.env, name);
            }
        }
    }
}

/// What the arguments of a container command say.
pub open spec fn container_draft(list: Seq<Token>, podman: bool) -> Result<
    ContainerDraft,
    RemoteFault,
>
    decreases list.len(),
{
    if list.len() == 0 {
        Ok(
            ContainerDraft {
                id: None,
                user: None,
                podman,
                upload: true,
                env: Seq::empty(),
                words: Seq::empty(),
            },
        )
    } else {
        match container_draft(list.drop_last(), podman) {
            Ok(draft) => container_argument(draft, list.last()),
            Err(fault) => Err(fault),
        }
    }
}

proof fn lemma_container_fault_stays(list: Seq<Token>, podman: bool, count: int)
    requires
        0 <= count <= list.len(),
        container_draft(list.take(count), podman) is Err,
    ensures
        container_draft(list, podman) == container_draft(list.take(count), podman),
    decreases list.len(),
{
    if count == list.len() {
        assert(list.take(count) =~= list);
    } else {
        assert(list.drop_last().take(count) =~= list.take(count));
        lemma_container_fault_stays(list.drop_last(), podman, count);
    }
}

/// What is wrong with a container command.
pub open spec fn container_fault(list: Seq<Token>, podman: bool) -> Option<RemoteFault> {
    match container_draft(list, podman) {
        Err(fault) => Some(fault),
        Ok(draft) => if draft.words.len() < 2 {
            Some(RemoteFault::ContainerNeedsNameAndPath)
        } else if trimmed(draft.words[0]).len() == 0 {
            Some(RemoteFault::EmptyContainer)
        } else {
            paths_fault(draft.words.drop_first(), RemotePathRequirement::Unix)
        },
    }
}

struct ContainerCommand {
    id: Option<String>,
    user: Option<String>,
    podman: bool,
    upload: bool,
    env: Vec<(String, String)>,
    words: Vec<String>,
}

impl View for ContainerCommand {
    type V = ContainerDraft;

    closed spec fn view(&self) -> ContainerDraft {
        ContainerDraft {
            id: optional_text(self.id),
            user: optional_text(self.user),
            podman: self.podman,
            upload: self.upload,
            env: pairs(self.env@),
            words: texts(self.words@),
        }
    }
}

impl ContainerCommand {
    fn knows(&self, name: &str) -> (result: bool)
        ensures
            result == has_name(self@.env, name@),
    {
        let ghost env = self@.env;
        let mut i: usize = 0;
        while i < self.env.len()
            invariant
                i <= self.env@.len(),
                env == pairs(self.env@),
                env == self@.env,
                forall|k: int| 0 <= k < i ==> (#[trigger] env[k]).0 != name@,
            decreases self.env@.len() - i,
        {
            assert(env[i as int] == (self.env@[i as int].0@, self.env@[i as int].1@));
            if same_text(self.env[i].0.as_str(), name) {
                return true;
            }
            i += 1;
        }
        false
    }

    fn read_variable(&mut self, pair: &str) -> (result: Result<(), RemoteError>)
        ensures
            match result {
                Ok(()) => with_variable(old(self)@, pair@) == Ok::<ContainerDraft, RemoteFault>(
                    final(self)@,
                ),
                Err(error) => with_variable(old(self)@, pair@) == Err::<
                    ContainerDraft,
                    RemoteFault,
                >(error@),
            },
    {
        let chars = chars_of(pair);
        let at: usize = find_char(&chars, 0, '=');
        assert(chars@.skip(0) =~= pair@);
        proof {
            lemma_first_index(pair@, '=');
        }
        if at == chars.len() {
            return Err(RemoteError::EnvironmentNeedsPair);
        }
        let name = string_of(&chars, 0, at);
        let value = string_of(&chars, at + 1, chars.len());
        assert(name@ =~= pair@.take(at as int));
        assert(value@ =~= pair@.skip(at + 1));
        if !valid_environment_name(name.as_str()) {
            return Err(RemoteError::BadEnvironmentName(name));
        }
        if self.knows(name.as_str()) {
            return Err(RemoteError::DuplicateEnvironmentName(name));
        }
        let ghost env = self@.env;
        let mut place: usize = self.env.len();
        assert(env.take(env.len() as int) =~= env);
        while place > 0 && !comes_before(self.env[place - 1].0.as_str(), name.as_str())
            invariant
                place <= self.env@.len(),
                env == pairs(self.env@),
                place_of(env, name@) == place_of(env.take(place as int), name@),
            decreases place,
        {
            assert(env.take(place as int).last() == env[place - 1]);
            assert(env.take(place as int).drop_last() =~= env.take(place - 1));
            place -= 1;
        }
        proof {
            if place > 0 {
                assert(env.take(place as int).last() == env[place - 1]);
            }
        }
        self.env.insert(place, (name, value));
        assert(pairs(self.env@) =~= env.insert(place as int, (name@, value@)));
        Ok(())
    }

    fn read(&mut self, argument: &Argument) -> (result: Result<(), RemoteError>)
        ensures
            match result {
                Ok(()) => container_argument(old(self)@, argument@) == Ok::<
                    ContainerDraft,
                    RemoteFault,
                >(final(self)@),
                Err(error) => container_argument(old(self)@, argument@) == Err::<
                    ContainerDraft,
                    RemoteFault,
                >(error@),
            },
    {
        let ghost before = self@;
        match argument {
            Argument::Word(word) => {
                self.words.push(word.clone());
                assert(texts(self.words@) =~= before.words.push(word@));
                Ok(())
            },
            Argument::Bare(name) => Err(RemoteError::NeedsValue(name.clone())),
            Argument::Flag(name) => if same_text(name.as_str(), "--podman") {
                self.podman = true;
                Ok(())
            } else if same_text(name.as_str(), "--docker") {
                self.podman = false;
                Ok(())
            } else if same_text(name.as_str(), "--no-upload") {
                self.upload = false;
                Ok(())
            } else {
                Err(RemoteError::UnknownContainerOption(name.clone()))
            },
            Argument::Valued(name, value) => if same_text(name.as_str(), "--id") {
                self.id = Some(value.clone());
                Ok(())
            } else if same_text(name.as_str(), "--user") {
                self.user = Some(value.clone());
                Ok(())
            } else {
                self.read_variable(value.as_str())
            },
        }
    }
}

fn read_container(list: &Vec<Argument>, podman: bool) -> (result: Result<
    ContainerCommand,
    RemoteError,
>)
    ensures
        match result {
            Ok(command) => container_draft(tokens(list@), podman) == Ok::<
                ContainerDraft,
                RemoteFault,
            >(command@),
            Err(error) => container_draft(tokens(list@), podman) == Err::<
                ContainerDraft,
                RemoteFault,
            >(error@),
        },
{
    let ghost all = tokens(list@);
    let mut command = ContainerCommand {
        id: None,
        user: None,
        podman,
        upload: true,
        env: Vec::new(),
        words: Vec::new(),
    };
    let mut i: usize = 0;
    proof {
        assert(all.take(0) =~= Seq::<Token>::empty());
        assert(pairs(command.env@) =~= Seq::<(Seq<char>, Seq<char>)>::empty());
        assert(texts(command.words@) =~= Seq::<Seq<char>>::empty());
    }
    while i < list.len()
        invariant
            i <= list@.len(),
            all == tokens(list@),
            container_draft(all.take(i as int), podman) == Ok::<ContainerDraft, RemoteFault>(
                command@,
            ),
        decreases list@.len() - i,
    {
        proof {
            assert(all.take(i + 1).drop_last() =~= all.take(i as int));
            assert(all.take(i + 1).last() == list@[i as int]@);
        }
        match command.read(&list[i]) {
            Ok(()) => {},
            Err(error) => {
                proof {
                    lemma_container_fault_stays(all, podman, i + 1);
                }
                return Err(error);
            },
        }
        i += 1;
    }
    assert(all.take(i as int) =~= all);
    Ok(command)
}

/// The texts of an optional list.
pub open spec fn optional_texts(list: Option<Vec<String>>) -> Option<Seq<Seq<char>>> {
    match list {
        Some(list) => Some(texts(list@)),
        None => None,
    }
}

/// Whether a request is the one that an SSH command asks for.
pub open spec fn is_ssh_request(request: RemoteRequest, draft: SshDraft) -> bool {
    request.options matches RemoteConnectionOptions::Ssh(options) && {
        &&& options.host@ == draft.words[0]
        &&& optional_text(options.username) == draft.username
        &&& options.port == draft.port
        &&& options.password is None
        &&& optional_texts(options.args) == (if draft.args.len() == 0 {
            None
        } else {
            Some(draft.args)
        })
        &&& options.port_forwards is None
        &&& options.connection_timeout == draft.timeout
        &&& optional_text(options.nickname) == draft.nickname
        &&& options.upload_binary_over_ssh == draft.upload
        &&& texts(request.paths@) == draft.words.drop_first()
    }
}

fn parse_ssh(list: &Vec<Argument>) -> (result: Result<RemoteRequest, RemoteError>)
    ensures
        refusal(result) == ssh_fault(tokens(list@)),
        result matches Ok(request) ==> is_ssh_request(request, ssh_draft(tokens(list@))->Ok_0),
{
    let command = match read_ssh(list) {
        Ok(command) => command,
        Err(error) => {
            return Err(error);
        },
    };
    if command.words.len() < 2 {
        return Err(RemoteError::SshNeedsHostAndPath);
    }
    assert(command@.words[0] == command.words@[0]@);
    let host = command.words[0].clone();
    let name = trim(host.as_str());
    if name.as_str().unicode_len() == 0 {
        return Err(RemoteError::EmptyHost);
    }
    if command.port == Some(0) {
        return Err(RemoteError::ZeroPort);
    }
    if command.timeout == Some(0) {
        return Err(RemoteError::ZeroTimeout);
    }
    let paths = match validated_remote_paths(&command.words, RemotePathRequirement::Either) {
        Ok(paths) => paths,
        Err(error) => {
            return Err(error);
        },
    };
    let args = if command.args.len() == 0 {
        None
    } else {
        Some(command.args)
    };
    Ok(
        RemoteRequest {
            options: RemoteConnectionOptions::Ssh(
                SshConnectionOptions {
                    host,
                    username: command.username,
                    port: command.port,
                    password: None,
                    args,
                    port_forwards: None,
                    connection_timeout: command.timeout,
                    nickname: command.nickname,
                    upload_binary_over_ssh: command.upload,
                },
            ),
            paths,
        },
    )
}

/// What the arguments of a WSL command say: the user, and the words.
pub open spec fn wsl_draft(list: Seq<Token>) -> Result<
    (Option<Seq<char>>, Seq<Seq<char>>),
    RemoteFault,
>
    decreases list.len(),
{
    if list.len() == 0 {
        Ok((None, Seq::empty()))
    } else {
        match wsl_draft(list.drop_last()) {
            Ok((user, words)) => match list.last() {
                Token::Word(word) => Ok((user, words.push(word))),
                Token::Valued(_, value) => Ok((Some(value), words)),
                Token::Bare(name) => Err(RemoteFault::NeedsValue(name)),
                Token::Flag(name) => Err(RemoteFault::UnknownWslOption(name)),
            },
            Err(fault) => Err(fault),
        }
    }
}

proof fn lemma_wsl_fault_stays(list: Seq<Token>, count: int)
    requires
        0 <= count <= list.len(),
        wsl_draft(list.take(count)) is Err,
    ensures
        wsl_draft(list) == wsl_draft(list.take(count)),
    decreases list.len(),
{
    if count == list.len() {
        assert(list.take(count) =~= list);
    } else {
        assert(list.drop_last().take(count) =~= list.take(count));
        lemma_wsl_fault_stays(list.drop_last(), count);
    }
}

/// What is wrong with a WSL command.
pub open spec fn wsl_fault(list: Seq<Token>) -> Option<RemoteFault> {
    match wsl_draft(list) {
        Err(fault) => Some(fault),
        Ok((user, words)) => if words.len() < 2 {
            Some(RemoteFault::WslNeedsDistroAndPath)
        } else if trimmed(words[0]).len() == 0 {
            Some(RemoteFault::EmptyDistro)
        } else {
            paths_fault(words.drop_first(), RemotePathRequirement::Unix)
        },
    }
}

/// Whether a request is the one that a WSL command asks for.
pub open spec fn is_wsl_request(
    request: RemoteRequest,
    user: Option<Seq<char>>,
    words: Seq<Seq<char>>,
) -> bool {
    request.options matches RemoteConnectionOptions::Wsl(options) && options.distro_name@
        == words[0] && optional_text(options.user) == user && texts(request.paths@)
        == words.drop_first()
}

fn parse_wsl(list: &Vec<Argument>) -> (result: Result<RemoteRequest, RemoteError>)
    ensures
        refusal(result) == wsl_fault(tokens(list@)),
        result matches Ok(request) ==> ({
            let draft = wsl_draft(tokens(list@))->Ok_0;
            is_wsl_request(request, draft.0, draft.1)
        }),
{
    let ghost all = tokens(list@);
    let mut user: Option<String> = None;
    let mut words: Vec<String> = Vec::new();
    let mut i: usize = 0;
    proof {
        assert(all.take(0) =~= Seq::<Token>::empty());
        assert(texts(words@) =~= Seq::<Seq<char>>::empty());
    }
    while i < list.len()
        invariant
            i <= list@.len(),
            all == tokens(list@),
            wsl_draft(all.take(i as int)) == Ok::<(Option<Seq<char>>, Seq<Seq<char>>), RemoteFault>(
                (optional_text(user), texts(words@)),
            ),
        decreases list@.len() - i,
    {
        proof {
            assert(all.take(i + 1).drop_last() =~= all.take(i as int));
            assert(all.take(i + 1).last() == list@[i as int]@);
            if wsl_draft(all.take(i + 1)) is Err {
                lemma_wsl_fault_stays(all, i + 1);
            }
        }
        match &list[i] {
            Argument::Word(word) => {
                let ghost before = texts(words@);
                words.push(word.clone());
                assert(texts(words@) =~= before.push(word@));
            },
            Argument::Valued(_, value) => {
                user = Some(value.clone());
            },
            Argument::Bare(name) => {
                return Err(RemoteError::NeedsValue(name.clone()));
            },
            Argument::Flag(name) => {
                return Err(RemoteError::UnknownWslOption(name.clone()));
            },
        }
        i += 1;
    }
    assert(all.take(i as int) =~= all);
    if words.len() < 2 {
        return Err(RemoteError::WslNeedsDistroAndPath);
    }
    assert(texts(words@)[0] == words@[0]@);
    let distro_name = words[0].clone();
    let name = trim(distro_name.as_str());
    if name.as_str().unicode_len() == 0 {
        return Err(RemoteError::EmptyDistro);
    }
    match validated_remote_paths(&words, RemotePathRequirement::Unix) {
        Ok(paths) => Ok(
            RemoteRequest {
                options: RemoteConnectionOptions::Wsl(WslConnectionOptions { distro_name, user }),
                paths,
            },
        ),
        Err(error) => Err(error),
    }
}

/// Whether a request is the one that a container command asks for.
pub open spec fn is_container_request(request: RemoteRequest, draft: ContainerDraft) -> bool {
    request.options matches RemoteConnectionOptions::Docker(options) && {
        &&& options.name@ == draft.words[0]
        &&& options.container_id@ == (match draft.id {
            Some(id) => id,
            None => draft.words[0],
        })
        &&& options.remote_user@ == (match draft.user {
            Some(user) => user,
            None => Seq::empty(),
        })
        &&& options.upload_binary_over_docker_exec == draft.upload
        &&& options.use_podman == draft.podman
        &&& pairs(options.remote_env@) == draft.env
        &&& texts(request.paths@) == draft.words.drop_first()
    }
}

fn parse_container(list: &Vec<Argument>, podman_alias: bool) -> (result: Result<
    RemoteRequest,
    RemoteError,
>)
    ensures
        refusal(result) == container_fault(tokens(list@), podman_alias),
        result matches Ok(request) ==> is_container_request(
            request,
            container_draft(tokens(list@), podman_alias)->Ok_0,
        ),
{
    let command = match read_container(list, podman_alias) {
        Ok(command) => command,
        Err(error) => {
            return Err(error);
        },
    };
    if command.words.len() < 2 {
        return Err(RemoteError::ContainerNeedsNameAndPath);
    }
    assert(command@.words[0] == command.words@[0]@);
    let name = command.words[0].clone();
    let trimmed_name = trim(name.as_str());
    if trimmed_name.as_str().unicode_len() == 0 {
        return Err(RemoteError::EmptyContainer);
    }
    let paths = match validated_remote_paths(&command.words, RemotePathRequirement::Unix) {
        Ok(paths) => paths,
        Err(error) => {
            return Err(error);
        },
    };
    let container_id = match command.id {
        Some(id) => id,
        None => name.clone(),
    };
    let remote_user = match command.user {
        Some(user) => user,
        None => {
            let user = String::new();
            assert(user@ =~= Seq::<char>::empty());
            user
        },
    };
    Ok(
        RemoteRequest {
            options: RemoteConnectionOptions::Docker(
                DockerConnectionOptions {
                    name,
                    container_id,
                    remote_user,
                    upload_binary_over_docker_exec: command.upload,
                    use_podman: command.podman,
                    remote_env: command.env,
                },
            ),
            paths,
        },
    )
}

/// The texts of arguments; those that are not UTF-8 have none.
pub open spec fn argument_texts(list: Seq<Option<String>>) -> Seq<Option<Seq<char>>> {
    Seq::new(list.len(), |i: int| optional_text(list[i]))
}

/// The arguments behind the transport.
pub open spec fn rest_texts(list: Seq<Option<Seq<char>>>) -> Seq<Seq<char>> {
    Seq::new((list.len() - 1) as nat, |i: int| list[i + 1]->0)
}

/// The transport that a word names.
pub open spec fn transport_of(word: Seq<char>) -> Option<Transport> {
    if word == "ssh"@ {
        Some(Transport::Ssh)
    } else if word == "wsl"@ {
        Some(Transport::Wsl)
    } else if word == "container"@ || word == "docker"@ || word == "podman"@ {
        Some(Transport::Container)
    } else {
        None
    }
}

/// What is wrong with a remote command.
pub open spec fn command_fault(list: Seq<Option<Seq<char>>>) -> Option<RemoteFault> {
    if list.len() == 0 || list[0] is None {
        Some(RemoteFault::NoTransport)
    } else if exists|i: int| 0 < i < list.len() && (#[trigger] list[i]) is None {
        Some(RemoteFault::NotUtf8)
    } else {
        let rest = rest_texts(list);
        match transport_of(list[0]->0) {
            Some(Transport::Ssh) => ssh_fault(parsed(Transport::Ssh, rest, false)),
            Some(Transport::Wsl) => wsl_fault(parsed(Transport::Wsl, rest, false)),
            Some(Transport::Container) => container_fault(
                parsed(Transport::Container, rest, false),
                list[0]->0 == "podman"@,
            ),
            None => Some(RemoteFault::UnknownTransport(list[0]->0)),
        }
    }
}

/// Whether a request is the one that a remote command asks for.
pub open spec fn is_request(request: RemoteRequest, list: Seq<Option<Seq<char>>>) -> bool {
    let rest = rest_texts(list);
    match transport_of(list[0]->0) {
        Some(Transport::Ssh) => is_ssh_request(
            request,
            ssh_draft(parsed(Transport::Ssh, rest, false))->Ok_0,
        ),
        Some(Transport::Wsl) => {
            let draft = wsl_draft(parsed(Transport::Wsl, rest, false))->Ok_0;
            is_wsl_request(request, draft.0, draft.1)
        },
        Some(Transport::Container) => is_container_request(
            request,
            container_draft(
                parsed(Transport::Container, rest, false),
                list[0]->0 == "podman"@,
            )->Ok_0,
        ),
        None => false,
    }
}

/// Reads the arguments of a remote command: a transport, its options, and
/// where the project lies. Arguments that are not UTF-8 are given as none.
pub fn parse_remote_command(arguments: &Vec<Option<String>>) -> (result: Result<
    RemoteRequest,
    RemoteError,
>)
    ensures
        refusal(result) == command_fault(argument_texts(arguments@)),
        result matches Ok(request) ==> is_request(request, argument_texts(arguments@)),
{
    let ghost list = argument_texts(arguments@);
    if arguments.len() == 0 {
        return Err(RemoteError::NoTransport);
    }
    assert(list[0] == optional_text(arguments@[0]));
    let transport = match &arguments[0] {
        Some(transport) => transport.as_str(),
        None => {
            return Err(RemoteError::NoTransport);
        },
    };
    let mut rest: Vec<String> = Vec::new();
    let mut i: usize = 1;
    while i < arguments.len()
        invariant
            1 <= i <= arguments@.len(),
            list == argument_texts(arguments@),
            list[0] is Some,
            rest@.len() == i - 1,
            forall|k: int| 0 < k < i ==> (#[trigger] list[k]) is Some,
            forall|k: int| 0 <= k < rest@.len() ==> (#[trigger] rest@[k])@ == list[k + 1]->0,
        decreases arguments@.len() - i,
    {
        assert(list[i as int] == optional_text(arguments@[i as int]));
        match &arguments[i] {
            Some(argument) => rest.push(argument.clone()),
            None => {
                return Err(RemoteError::NotUtf8);
            },
        }
        i += 1;
    }
    assert(texts(rest@) =~= rest_texts(list));
    if same_text(transport, "ssh") {
        return parse_ssh(&parse_arguments(Transport::Ssh, &rest));
    }
    if same_text(transport, "wsl") {
        return parse_wsl(&parse_arguments(Transport::Wsl, &rest));
    }
    let podman = same_text(transport, "podman");
    if podman || same_text(transport, "container") || same_text(transport, "docker") {
        return parse_container(&parse_arguments(Transport::Container, &rest), podman);
    }
    Err(RemoteError::UnknownTransport(transport.to_string()))
}

/// Only the listed options take the argument after them.
pub proof fn only_listed_options_take_values(
    transport: Transport,
    list: Seq<Seq<char>>,
    words_only: bool,
)
    ensures
        forall|i: int|
            0 <= i < parsed(transport, list, words_only).len() ==> match (#[trigger] parsed(
                transport,
                list,
                words_only,
            )[i]) {
                Token::Valued(name, _) => takes_value(transport, name),
                Token::Flag(name) => !takes_value(transport, name),
                _ => true,
            },
    decreases list.len(),
{
    if list.len() > 0 {
        only_listed_options_take_values(transport, list.drop_first(), true);
        only_listed_options_take_values(transport, list.drop_first(), false);
        only_listed_options_take_values(transport, list.drop_first(), words_only);
        if list.len() > 1 {
            only_listed_options_take_values(transport, list.skip(2), false);
        }
        let all = parsed(transport, list, words_only);
        assert forall|i: int| 0 <= i < all.len() implies match (#[trigger] all[i]) {
            Token::Valued(name, _) => takes_value(transport, name),
            Token::Flag(name) => !takes_value(transport, name),
            _ => true,
        } by {
            if !words_only && list[0] == "--"@ {
            } else if !words_only && starts(list[0], "-"@) {
                if !takes_value(transport, list[0]) {
                    if i > 0 {
                        assert(all[i] == parsed(transport, list.drop_first(), false)[i - 1]);
                    }
                } else if list.len() > 1 {
                    if i > 0 {
                        assert(all[i] == parsed(transport, list.skip(2), false)[i - 1]);
                    }
                }
            } else if i > 0 {
                assert(all[i] == parsed(transport, list.drop_first(), words_only)[i - 1]);
            }
        }
    }
}

/// A command that gives the option for a password is refused, and a request
/// never holds one.
pub proof fn passwords_are_never_accepted(list: Seq<Token>, i: int, request: RemoteRequest)
    ensures
        0 <= i < list.len() && list[i] == Token::Flag("--password"@) ==> ssh_fault(list) is Some,
        ssh_fault(list) is None && is_ssh_request(request, ssh_draft(list)->Ok_0) ==> (
        request.options matches RemoteConnectionOptions::Ssh(options) && options.password is None),
{
    if 0 <= i < list.len() && list[i] == Token::Flag("--password"@) {
        let seen = list.take(i + 1);
        assert(seen.last() == list[i]);
        reveal_strlit("--password");
        reveal_strlit("--no-upload");
        assert("--password"@ != "--no-upload"@) by {
            assert("--password"@[2] != "--no-upload"@[2]);
        }
        assert(ssh_draft(seen) is Err);
        lemma_ssh_fault_stays(list, i + 1);
    }
}

/// What is shown of a question.
#[derive(Clone, Debug, PartialEq, Eq)]
pub struct RemotePromptSnapshot {
    pub prompt: String,
    pub display_input: String,
    pub cursor: usize,
    pub masked: bool,
}

/// What is shown while connecting.
#[derive(Clone, Debug, PartialEq, Eq)]
pub struct RemoteUiSnapshot {
    pub status: Option<String>,
    pub prompt: Option<RemotePromptSnapshot>,
}

/// The plain values of a [`RemotePromptSnapshot`].
pub struct Question {
    pub prompt: Seq<char>,
    pub input: Seq<char>,
    pub cursor: usize,
    pub masked: bool,
}

impl View for RemotePromptSnapshot {
    type V = Question;

    open spec fn view(&self) -> Question {
        Question {
            prompt: self.prompt@,
            input: self.display_input@,
            cursor: self.cursor,
            masked: self.masked,
        }
    }
}

/// The question of a snapshot.
pub open spec fn question(prompt: Option<RemotePromptSnapshot>) -> Option<Question> {
    match prompt {
        Some(prompt) => Some(prompt@),
        None => None,
    }
}

impl Default for RemoteUiSnapshot {
    fn default() -> (snapshot: Self)
        ensures
            snapshot.status is None,
            snapshot.prompt is None,
    {
        RemoteUiSnapshot { status: None, prompt: None }
    }
}

/// Whether a text holds another, but for the case of ASCII letters.
pub open spec fn holds_folded(s: Seq<char>, part: Seq<char>) -> bool {
    exists|i: int| folded_at(s, part, i)
}

pub open spec fn folded_at(s: Seq<char>, part: Seq<char>, i: int) -> bool {
    0 <= i <= s.len() - part.len() && same_folded(s.subrange(i, i + part.len()), part)
}

fn holds_ignoring_case(s: &str, part: &str) -> (result: bool)
    ensures
        result == holds_folded(s@, part@),
{
    let chars = chars_of(s);
    let count: usize = part.unicode_len();
    let total: usize = chars.len();
    if count > total {
        return false;
    }
    let last: usize = total - count;
    let mut at: usize = 0;
    loop
        invariant
            chars@ == s@,
            count == part@.len(),
            total == chars@.len(),
            last == total - count,
            at <= last,
            forall|i: int| 0 <= i < at ==> !folded_at(s@, part@, i),
        decreases last - at,
    {
        let piece = string_of(&chars, at, at + count);
        assert(piece@ =~= s@.subrange(at as int, at + part@.len()));
        if same_ignoring_case(piece.as_str(), part) {
            assert(folded_at(s@, part@, at as int));
            return true;
        }
        if at == last {
            return false;
        }
        at += 1;
    }
}

/// Whether the answer to a question is kept from sight: not where it asks for
/// a confirmation.
pub open spec fn masks(prompt: Seq<char>) -> bool {
    !(holds_folded(prompt, "yes/no"@) || holds_folded(prompt, "yes/no/[fingerprint]"@)
        || holds_folded(prompt, "are you sure"@) || holds_folded(prompt, "continue connecting"@))
}

/// Whether the answer to a question is kept from sight.
pub fn prompt_should_be_masked(prompt: &str) -> (masked: bool)
    ensures
        masked == masks(prompt@),
{
    !(holds_ignoring_case(prompt, "yes/no") || holds_ignoring_case(
        prompt,
        "yes/no/[fingerprint]",
    ) || holds_ignoring_case(prompt, "are you sure") || holds_ignoring_case(
        prompt,
        "continue connecting",
    ))
}

/// `Zeroize::zeroize` on a string: it is empty afterwards. That the memory
/// that held the text is overwritten stays unsaid.
#[verifier::external_body]
fn wipe(text: &mut String)
    ensures
        final(text)@ == Seq::<char>::empty(),
{
    text.zeroize();
}

/// A question that waits for an answer.
pub struct Pending {
    pub generation: u64,
    pub prompt: Seq<char>,
    pub input: Seq<char>,
    pub masked: bool,
}

/// What is known while connecting.
pub struct RemoteUi {
    pub status: Option<Seq<char>>,
    pub prompt: Option<Pending>,
    pub next_generation: u64,
}

struct PendingPrompt {
    generation: u64,
    prompt: String,
    input: String,
    masked: bool,
}

impl View for PendingPrompt {
    type V = Pending;

    closed spec fn view(&self) -> Pending {
        Pending {
            generation: self.generation,
            prompt: self.prompt@,
            input: self.input@,
            masked: self.masked,
        }
    }
}

spec fn pending(prompt: Option<PendingPrompt>) -> Option<Pending> {
    match prompt {
        Some(prompt) => Some(prompt@),
        None => None,
    }
}

/// The state of the screens that show while connecting.
pub struct RemoteUiState {
    status: Option<String>,
    prompt: Option<PendingPrompt>,
    next_generation: u64,
}

impl View for RemoteUiState {
    type V = RemoteUi;

    closed spec fn view(&self) -> RemoteUi {
        RemoteUi {
            status: optional_text(self.status),
            prompt: pending(self.prompt),
            next_generation: self.next_generation,
        }
    }
}

/// What a key did to the question.
#[derive(Debug, PartialEq, Eq)]
pub struct RemoteKey {
    /// Whether there was a question for it.
    pub handled: bool,
    /// Whether the screen has to be drawn again.
    pub changed: bool,
    /// The answer, once it was given. The buffer in which it was typed is handed
    /// over, and no copy is left.
    pub submitted: Option<String>,
}

impl RemoteUi {
    /// What a key does: the state, whether a question took it, whether
    /// something changed, and the answer; or the fault.
    pub open spec fn after_key(self, event: KeyEvent) -> Result<
        (RemoteUi, bool, bool, Option<Seq<char>>),
        RemoteFault,
    > {
        if event.kind == KeyEventKind::Release {
            Ok((self, self.prompt is Some, false, None))
        } else {
            match self.prompt {
                None => Ok((self, false, false, None)),
                Some(prompt) => {
                    let closed = RemoteUi { prompt: None, ..self };
                    match event.code {
                        KeyCode::Esc => Ok((closed, true, true, None)),
                        KeyCode::Enter => Ok((closed, true, true, Some(prompt.input))),
                        KeyCode::Backspace => Ok(
                            (
                                self.with_input(
                                    if prompt.input.len() > 0 {
                                        prompt.input.drop_last()
                                    } else {
                                        prompt.input
                                    },
                                ),
                                true,
                                true,
                                None,
                            ),
                        ),
                        KeyCode::Char(c) => if c == 'u' && event.modifiers == only_control() {
                            Ok((self.with_input(Seq::empty()), true, true, None))
                        } else if event.modifiers == no_modifiers() || event.modifiers
                            == only_shift() {
                            if utf8_len(prompt.input) + char_width(c) > MAX_REMOTE_PROMPT_BYTES {
                                Err(RemoteFault::ResponseTooLarge)
                            } else {
                                Ok((self.with_input(prompt.input.push(c)), true, true, None))
                            }
                        } else {
                            Ok((self, true, true, None))
                        },
                        _ => Ok((self, true, true, None)),
                    }
                },
            }
        }
    }

    /// The state with another answer so far.
    pub open spec fn with_input(self, input: Seq<char>) -> RemoteUi {
        match self.prompt {
            Some(prompt) => RemoteUi { prompt: Some(Pending { input, ..prompt }), ..self },
            None => self,
        }
    }

    /// What is shown of the question.
    pub open spec fn shown(self) -> Option<Question> {
        match self.prompt {
            Some(prompt) => {
                Some(
                    Question {
                        prompt: prompt.prompt,
                        input: if prompt.masked {
                            Seq::new(prompt.input.len(), |i: int| '\u{2022}')
                        } else {
                            prompt.input
                        },
                        cursor: prompt.input.len() as usize,
                        masked: prompt.masked,
                    },
                )
            },
            None => None,
        }
    }
}

/// A text without its line breaks.
pub open spec fn without_breaks(s: Seq<char>) -> Seq<char>
    decreases s.len(),
{
    if s.len() == 0 {
        s
    } else if s.last() == '\r' || s.last() == '\n' {
        without_breaks(s.drop_last())
    } else {
        without_breaks(s.drop_last()).push(s.last())
    }
}

fn strip_breaks(s: &str) -> (result: String)
    ensures
        result@ == without_breaks(s@),
{
    let chars = chars_of(s);
    let mut result = String::new();
    let mut i: usize = 0;
    assert(chars@.take(0) =~= Seq::<char>::empty());
    assert(result@ =~= Seq::<char>::empty());
    while i < chars.len()
        invariant
            i <= chars@.len(),
            result@ == without_breaks(chars@.take(i as int)),
        decreases chars@.len() - i,
    {
        assert(chars@.take(i + 1).drop_last() =~= chars@.take(i as int));
        if chars[i] != '\r' && chars[i] != '\n' {
            result.push(chars[i]);
        }
        i += 1;
    }
    assert(chars@.take(i as int) =~= s@);
    result
}

impl Default for RemoteUiState {
    fn default() -> (state: Self)
        ensures
            state@ == (RemoteUi { status: None, prompt: None, next_generation: 0 }),
    {
        RemoteUiState { status: None, prompt: None, next_generation: 0 }
    }
}

impl RemoteUiState {
    pub fn snapshot(&self) -> (snapshot: RemoteUiSnapshot)
        ensures
            optional_text(snapshot.status) == self@.status,
            question(snapshot.prompt) == self@.shown(),
    {
        let prompt = match &self.prompt {
            Some(prompt) => {
                let count: usize = prompt.input.as_str().unicode_len();
                let display_input = if prompt.masked {
                    let mut dots = String::new();
                    let mut i: usize = 0;
                    assert(dots@ =~= Seq::new(0, |i: int| '\u{2022}'));
                    while i < count
                        invariant
                            i <= count,
                            dots@ == Seq::new(i as nat, |i: int| '\u{2022}'),
                        decreases count - i,
                    {
                        dots.push('\u{2022}');
                        i += 1;
                        assert(dots@ =~= Seq::new(i as nat, |i: int| '\u{2022}'));
                    }
                    dots
                } else {
                    prompt.input.clone()
                };
                Some(
                    RemotePromptSnapshot {
                        prompt: prompt.prompt.clone(),
                        display_input,
                        cursor: count,
                        masked: prompt.masked,
                    },
                )
            },
            None => None,
        };
        let status = match &self.status {
            Some(status) => Some(status.clone()),
            None => None,
        };
        RemoteUiSnapshot { status, prompt }
    }

    pub fn has_prompt(&self) -> (result: bool)
        ensures
            result == self@.prompt is Some,
    {
        self.prompt.is_some()
    }

    pub fn handle_key(&mut self, event: &KeyEvent) -> (result: Result<RemoteKey, RemoteError>)
        ensures
            match result {
                Ok(key) => old(self)@.after_key(*event) == Ok::<
                    (RemoteUi, bool, bool, Option<Seq<char>>),
                    RemoteFault,
                >((final(self)@, key.handled, key.changed, optional_text(key.submitted))),
                Err(error) => old(self)@.after_key(*event) == Err::<
                    (RemoteUi, bool, bool, Option<Seq<char>>),
                    RemoteFault,
                >(error@) && final(self)@ == old(self)@,
            },
    {
        if event.kind == KeyEventKind::Release {
            return Ok(
                RemoteKey { handled: self.prompt.is_some(), changed: false, submitted: None },
            );
        }
        let ghost before = self@;
        let mut prompt = match self.prompt.take() {
            Some(prompt) => prompt,
            None => {
                return Ok(RemoteKey { handled: false, changed: false, submitted: None });
            },
        };
        assert(before.prompt == Some(prompt@));
        if event.code == KeyCode::Esc {
            wipe(&mut prompt.input);
            return Ok(RemoteKey { handled: true, changed: true, submitted: None });
        }
        if event.code == KeyCode::Enter {
            let mut answer = String::new();
            std::mem::swap(&mut answer, &mut prompt.input);
            return Ok(RemoteKey { handled: true, changed: true, submitted: Some(answer) });
        }
        if event.code == KeyCode::Backspace {
            prompt.input.pop();
        } else if let KeyCode::Char(c) = event.code {
            if c == 'u' && event.modifiers == KeyModifiers::control() {
                wipe(&mut prompt.input);
            } else if event.modifiers == KeyModifiers::none() || event.modifiers
                == KeyModifiers::shift() {
                let length: usize = byte_len(prompt.input.as_str());
                if length.saturating_add(char_len(c)) > MAX_REMOTE_PROMPT_BYTES {
                    self.prompt = Some(prompt);
                    return Err(RemoteError::ResponseTooLarge);
                }
                prompt.input.push(c);
            }
        }
        self.prompt = Some(prompt);
        Ok(RemoteKey { handled: true, changed: true, submitted: None })
    }

    /// Takes pasted text as part of the answer. The answer tells whether there
    /// was a question.
    pub fn handle_paste(&mut self, text: &str) -> (result: Result<bool, RemoteError>)
        ensures
            match old(self)@.prompt {
                None => result == Ok::<bool, RemoteError>(false) && final(self)@ == old(self)@,
                Some(prompt) => if utf8_len(prompt.input) + utf8_len(without_breaks(text@))
                    > MAX_REMOTE_PROMPT_BYTES {
                    refusal(result) == Some(RemoteFault::ResponseTooLarge) && final(self)@ == old(
                        self,
                    )@
                } else {
                    result == Ok::<bool, RemoteError>(true) && final(self)@ == old(
                        self,
                    )@.with_input(prompt.input + without_breaks(text@))
                },
            },
    {
        let mut prompt = match self.prompt.take() {
            Some(prompt) => prompt,
            None => {
                return Ok(false);
            },
        };
        let mut text = strip_breaks(text);
        let length: usize = byte_len(prompt.input.as_str());
        if length.saturating_add(byte_len(text.as_str())) > MAX_REMOTE_PROMPT_BYTES {
            wipe(&mut text);
            self.prompt = Some(prompt);
            return Err(RemoteError::ResponseTooLarge);
        }
        prompt.input.append(text.as_str());
        wipe(&mut text);
        self.prompt = Some(prompt);
        Ok(true)
    }

    /// Gives up the question. The answer tells whether there was one.
    pub fn cancel_prompt(&mut self) -> (cancelled: bool)
        ensures
            cancelled == old(self)@.prompt is Some,
            final(self)@ == (RemoteUi { prompt: None, ..old(self)@ }),
    {
        match self.prompt.take() {
            Some(prompt) => {
                let mut prompt = prompt;
                wipe(&mut prompt.input);
                true
            },
            None => false,
        }
    }

    /// Asks a question, in place of the one before. The answer is the number
    /// by which it can be called off.
    pub fn ask_password(&mut self, prompt: String) -> (generation: u64)
        ensures
            generation == (if old(self)@.next_generation == u64::MAX {
                u64::MAX
            } else {
                (old(self)@.next_generation + 1) as u64
            }),
            final(self)@ == (RemoteUi {
                next_generation: generation,
                prompt: Some(
                    Pending {
                        generation,
                        prompt: prompt@,
                        input: Seq::empty(),
                        masked: masks(prompt@),
                    },
                ),
                ..old(self)@
            }),
    {
        self.cancel_prompt();
        self.next_generation = self.next_generation.saturating_add(1);
        let input = String::new();
        assert(input@ =~= Seq::<char>::empty());
        self.prompt = Some(
            PendingPrompt {
                generation: self.next_generation,
                masked: prompt_should_be_masked(prompt.as_str()),
                prompt,
                input,
            },
        );
        self.next_generation
    }

    /// Calls off a question, unless another one was asked since. The answer
    /// tells whether it was called off.
    pub fn cancel_generation(&mut self, generation: u64) -> (cancelled: bool)
        ensures
            cancelled == (old(self)@.prompt matches Some(prompt) && prompt.generation
                == generation),
            final(self)@ == (if cancelled {
                RemoteUi { prompt: None, ..old(self)@ }
            } else {
                old(self)@
            }),
    {
        let current = match &self.prompt {
            Some(prompt) => prompt.generation == generation,
            None => false,
        };
        if current {
            self.cancel_prompt();
        }
        current
    }

    pub fn set_status(&mut self, status: Option<String>)
        ensures
            final(self)@ == (RemoteUi { status: optional_text(status), ..old(self)@ }),
    {
        self.status = status;
    }
}

/// An answer never grows over its limit, and what is masked is never shown.
pub proof fn answers_are_bounded_and_masked(ui: RemoteUi, event: KeyEvent)
    requires
        ui.prompt matches Some(prompt) ==> utf8_len(prompt.input) <= MAX_REMOTE_PROMPT_BYTES,
    ensures
        ui.after_key(event) matches Ok(next) ==> (next.0.prompt matches Some(prompt) ==> utf8_len(
            prompt.input,
        ) <= MAX_REMOTE_PROMPT_BYTES),
        ui.shown() matches Some(shown) ==> (shown.masked ==> shown.input.len()
            == ui.prompt->0.input.len() && forall|i: int|
            0 <= i < shown.input.len() ==> (#[trigger] shown.input[i]) == '\u{2022}'),
{
    if let Some(prompt) = ui.prompt {
        if prompt.input.len() > 0 {
            assert(prompt.input =~= prompt.input.drop_last().push(prompt.input.last()));
            lemma_utf8_len_push(prompt.input.drop_last(), prompt.input.last());
        }
        if let KeyCode::Char(c) = event.code {
            lemma_utf8_len_push(prompt.input, c);
        }
        assert(utf8_len(Seq::<char>::empty()) == 0);
    }
}

/// A text on one line, within so many characters.
pub open spec fn one_line(s: Seq<char>, width: int) -> Seq<char> {
    let clean = Seq::new(
        s.len(),
        |i: int|
            if s[i] == '\r' || s[i] == '\n' || s[i] == '\0' {
                ' '
            } else {
                s[i]
            },
    );
    if width <= 0 {
        Seq::empty()
    } else if s.len() > width {
        clean.take(width - 1).push('\u{2026}')
    } else {
        clean
    }
}

/// A question on one line, within so many characters.
pub fn bounded_line(text: &str, width: usize) -> (line: String)
    ensures
        line@ == one_line(text@, width as int),
{
    let mut line = String::new();
    assert(line@ =~= Seq::<char>::empty());
    if width == 0 {
        return line;
    }
    let chars = chars_of(text);
    let ghost clean = Seq::new(
        text@.len(),
        |i: int|
            if text@[i] == '\r' || text@[i] == '\n' || text@[i] == '\0' {
                ' '
            } else {
                text@[i]
            },
    );
    let count: usize = if chars.len() > width {
        width - 1
    } else {
        chars.len()
    };
    let mut i: usize = 0;
    assert(line@ =~= clean.take(0));
    while i < count
        invariant
            i <= count <= chars@.len(),
            chars@ == text@,
            clean == Seq::new(
                text@.len(),
                |i: int|
                    if text@[i] == '\r' || text@[i] == '\n' || text@[i] == '\0' {
                        ' '
                    } else {
                        text@[i]
                    },
            ),
            line@ == clean.take(i as int),
        decreases count - i,
    {
        let c = chars[i];
        line.push(
            if c == '\r' || c == '\n' || c == '\0' {
                ' '
            } else {
                c
            },
        );
        i += 1;
        assert(line@ =~= clean.take(i as int));
    }
    if chars.len() > width {
        line.push('\u{2026}');
    } else {
        assert(clean.take(i as int) =~= clean);
    }
    line
}

/// A line in a style.
pub open spec fn styled(text: Seq<char>, style: StyleParts) -> (Seq<char>, StyleParts) {
    (text, style)
}

/// What the screen tells while connecting.
pub open spec fn connection_lines(
    name: Seq<char>,
    status: Option<Seq<char>>,
    prompt: Option<Question>,
    width: int,
) -> Seq<(Seq<char>, StyleParts)> {
    let front = seq![
        styled("Connecting to "@ + name, with_modifiers(no_parts(), BOLD)),
        styled(
            match status {
                Some(status) => status,
                None => "Starting transport\u{2026}"@,
            },
            no_parts(),
        ),
        styled(Seq::empty(), no_parts()),
    ];
    match prompt {
        Some(prompt) => front + seq![
            styled(one_line(prompt.prompt, width), no_parts()),
            styled("> "@ + prompt.input, no_parts()),
            styled(
                if prompt.masked {
                    "Enter submit \u{b7} Esc cancel \u{b7} input is masked"@
                } else {
                    "Enter submit \u{b7} Esc cancel"@
                },
                no_parts(),
            ),
        ],
        None => front + seq![styled("Ctrl-Q or Esc cancels"@, no_parts())],
    }
}

/// The part of the screen that holds the text.
pub open spec fn connection_area(area: Rect) -> Rect {
    Rect::spec_new(
        coordinate(area.x + 2) as u16,
        coordinate(area.y + 2) as u16,
        above_zero(area.width - 4) as u16,
        above_zero(area.height - 4) as u16,
    )
}

/// What the screen draws while connecting.
pub open spec fn connection_strokes(
    area: Rect,
    name: Seq<char>,
    status: Option<Seq<char>>,
    prompt: Option<Question>,
) -> Seq<Stroke> {
    let inner = connection_area(area);
    seq![
        Stroke::Clear { area },
        Stroke::Frame {
            area,
            title: " zec remote "@,
            style: no_parts(),
            border: no_parts(),
        },
        Stroke::Paragraph {
            area: inner,
            lines: connection_lines(name, status, prompt, inner.width as int),
        },
    ]
}

/// The cell of the cursor on that screen.
pub open spec fn connection_cursor(area: Rect, prompt: Option<Question>) -> Option<Position> {
    let inner = connection_area(area);
    match prompt {
        Some(prompt) => Some(
            Position {
                x: least(
                    coordinate(inner.x + 2 + coordinate(prompt.cursor as int)),
                    above_zero(inner.spec_right() - 1),
                ) as u16,
                y: least(coordinate(inner.y + 4), above_zero(inner.spec_bottom() - 1)) as u16,
            },
        ),
        None => None,
    }
}

fn push_line(lines: &mut Vec<StyledLine>, text: String, bold: bool)
    ensures
        styled_views(final(lines)@) == styled_views(old(lines)@).push(
            styled(
                text@,
                if bold {
                    with_modifiers(no_parts(), BOLD)
                } else {
                    no_parts()
                },
            ),
        ),
{
    let style = if bold {
        add_modifiers(plain_style(), BOLD)
    } else {
        plain_style()
    };
    lines.push(StyledLine { text, style });
    assert(styled_views(lines@) =~= styled_views(old(lines)@).push((text@, style_parts(style))));
}

fn answer_line(prompt: &RemotePromptSnapshot) -> (text: String)
    ensures
        text@ == "> "@ + prompt@.input,
{
    let mut text = "> ".to_string();
    text.append(prompt.display_input.as_str());
    text
}

fn connection_paints(area: Rect, remote_name: &str, snapshot: &RemoteUiSnapshot) -> (list: Vec<
    Paint,
>)
    ensures
        strokes(list@) == connection_strokes(
            area,
            remote_name@,
            optional_text(snapshot.status),
            question(snapshot.prompt),
        ),
{
    let inner = Rect::new(
        area.x.saturating_add(2),
        area.y.saturating_add(2),
        area.width.saturating_sub(4),
        area.height.saturating_sub(4),
    );
    let mut lines: Vec<StyledLine> = Vec::new();
    let ghost goal = connection_lines(
        remote_name@,
        optional_text(snapshot.status),
        question(snapshot.prompt),
        inner.width as int,
    );
    let mut title = "Connecting to ".to_string();
    title.append(remote_name);
    push_line(&mut lines, title, true);
    let status = match &snapshot.status {
        Some(status) => status.clone(),
        None => "Starting transport\u{2026}".to_string(),
    };
    push_line(&mut lines, status, false);
    let blank = String::new();
    assert(blank@ =~= Seq::<char>::empty());
    push_line(&mut lines, blank, false);
    match &snapshot.prompt {
        Some(prompt) => {
            push_line(
                &mut lines,
                bounded_line(prompt.prompt.as_str(), inner.width as usize),
                false,
            );
            push_line(&mut lines, answer_line(prompt), false);
            let hint = if prompt.masked {
                "Enter submit \u{b7} Esc cancel \u{b7} input is masked"
            } else {
                "Enter submit \u{b7} Esc cancel"
            };
            push_line(&mut lines, hint.to_string(), false);
        },
        None => push_line(&mut lines, "Ctrl-Q or Esc cancels".to_string(), false),
    }
    assert(styled_views(lines@) =~= goal);
    let mut list: Vec<Paint> = Vec::new();
    list.push(Paint::Clear { area });
    list.push(
        Paint::Frame {
            area,
            title: " zec remote ".to_string(),
            style: plain_style(),
            border: plain_style(),
        },
    );
    list.push(Paint::Paragraph { area: inner, lines });
    assert(strokes(list@) =~= connection_strokes(
        area,
        remote_name@,
        optional_text(snapshot.status),
        question(snapshot.prompt),
    ));
    list
}

/// Draws the screen that shows while connecting, on a buffer that takes it. The
/// answer is the cell of the cursor.
pub fn draw_connection_screen(
    area: Rect,
    buffer: &mut Buffer,
    remote_name: &str,
    snapshot: &RemoteUiSnapshot,
) -> (cursor: Option<Position>)
    requires
        all_paintable(
            buffer_area(*old(buffer)),
            connection_strokes(
                area,
                remote_name@,
                optional_text(snapshot.status),
                question(snapshot.prompt),
            ),
        ),
    ensures
        buffer_area(*final(buffer)) == buffer_area(*old(buffer)),
        buffer_cells(*final(buffer)) == drawn(
            buffer_cells(*old(buffer)),
            buffer_area(*old(buffer)),
            connection_strokes(
                area,
                remote_name@,
                optional_text(snapshot.status),
                question(snapshot.prompt),
            ),
        ),
        cursor == connection_cursor(area, question(snapshot.prompt)),
{
    paint(buffer, &connection_paints(area, remote_name, snapshot));
    let inner = Rect::new(
        area.x.saturating_add(2),
        area.y.saturating_add(2),
        area.width.saturating_sub(4),
        area.height.saturating_sub(4),
    );
    match &snapshot.prompt {
        Some(prompt) => {
            let column: u16 = inner.x.saturating_add(2).saturating_add(
                coordinate_or(prompt.cursor, u16::MAX),
            );
            let last: u16 = inner.right().saturating_sub(1);
            let row: u16 = inner.y.saturating_add(4);
            let bottom: u16 = inner.bottom().saturating_sub(1);
            Some(
                Position {
                    x: if column <= last {
                        column
                    } else {
                        last
                    },
                    y: if row <= bottom {
                        row
                    } else {
                        bottom
                    },
                },
            )
        },
        None => None,
    }
}

/// Draws the screen that shows while connecting, if the buffer takes it. The
/// answer holds the cell of the cursor; there is none where nothing is drawn.
pub fn try_connection_screen(
    area: Rect,
    buffer: &mut Buffer,
    remote_name: &str,
    snapshot: &RemoteUiSnapshot,
) -> (shown: Option<Option<Position>>)
    ensures
        buffer_area(*final(buffer)) == buffer_area(*old(buffer)),
        if all_paintable(
            buffer_area(*old(buffer)),
            connection_strokes(
                area,
                remote_name@,
                optional_text(snapshot.status),
                question(snapshot.prompt),
            ),
        ) {
            &&& buffer_cells(*final(buffer)) == drawn(
                buffer_cells(*old(buffer)),
                buffer_area(*old(buffer)),
                connection_strokes(
                    area,
                    remote_name@,
                    optional_text(snapshot.status),
                    question(snapshot.prompt),
                ),
            )
            &&& shown == Some(connection_cursor(area, question(snapshot.prompt)))
        } else {
            shown is None && *final(buffer) == *old(buffer)
        },
{
    if takes(area_of(buffer), &connection_paints(area, remote_name, snapshot)) {
        Some(draw_connection_screen(area, buffer, remote_name, snapshot))
    } else {
        None
    }
}

/// The rectangle of the question over the document.
pub open spec fn auth_area(outer: Rect) -> Rect {
    let width = greatest(least(above_zero(outer.width - 4), 92), 12);
    let height = least(7, greatest(above_zero(outer.height - 2), 3));
    Rect::spec_new(
        coordinate(outer.x + above_zero(outer.width - width) / 2) as u16,
        coordinate(outer.y + above_zero(outer.height - height) / 2) as u16,
        width as u16,
        height as u16,
    )
}

/// What is drawn for a question over the document.
pub open spec fn auth_strokes(outer: Rect, buffer: Rect, prompt: Question) -> Seq<Stroke> {
    let width = greatest(least(above_zero(outer.width - 4), 92), 12);
    let area = auth_area(outer);
    let block = area.spec_intersection(buffer);
    seq![
        Stroke::Clear { area },
        Stroke::Frame {
            area: block,
            title: " remote authentication "@,
            style: no_parts(),
            border: no_parts(),
        },
        Stroke::Paragraph {
            area: block.spec_inside_border(),
            lines: seq![
                styled(one_line(prompt.prompt, width - 2), no_parts()),
                styled("> "@ + prompt.input, no_parts()),
                styled(
                    if prompt.masked {
                        "Enter submit \u{b7} Esc cancel \u{b7} masked"@
                    } else {
                        "Enter submit \u{b7} Esc cancel"@
                    },
                    no_parts(),
                ),
            ],
        },
    ]
}

/// The cell of the cursor in a question over the document.
pub open spec fn auth_cursor(outer: Rect, prompt: Question) -> Position {
    let area = auth_area(outer);
    Position {
        x: least(
            coordinate(area.x + 3 + coordinate(prompt.cursor as int)),
            above_zero(area.spec_right() - 2),
        ) as u16,
        y: coordinate(area.y + 2) as u16,
    }
}

/// The rectangle of the question over the document, and its width.
fn auth_rect(outer: Rect) -> (result: (Rect, u16))
    ensures
        result.0 == auth_area(outer),
        result.1 == greatest(least(above_zero(outer.width - 4), 92), 12),
{
    let room: u16 = outer.width.saturating_sub(4);
    let width: u16 = if room > 92 {
        92
    } else if room < 12 {
        12
    } else {
        room
    };
    let rows: u16 = outer.height.saturating_sub(2);
    let height: u16 = if rows < 3 {
        3
    } else if rows > 7 {
        7
    } else {
        rows
    };
    let area = Rect::new(
        outer.x.saturating_add(outer.width.saturating_sub(width) / 2),
        outer.y.saturating_add(outer.height.saturating_sub(height) / 2),
        width,
        height,
    );
    (area, width)
}

fn auth_paints(outer: Rect, bounds: Rect, prompt: &RemotePromptSnapshot) -> (list: Vec<Paint>)
    ensures
        strokes(list@) == auth_strokes(outer, bounds, prompt@),
{
    let (area, width) = auth_rect(outer);
    let block = area.intersection(bounds);
    let mut lines: Vec<StyledLine> = Vec::new();
    push_line(
        &mut lines,
        bounded_line(prompt.prompt.as_str(), width.saturating_sub(2) as usize),
        false,
    );
    push_line(&mut lines, answer_line(prompt), false);
    let hint = if prompt.masked {
        "Enter submit \u{b7} Esc cancel \u{b7} masked"
    } else {
        "Enter submit \u{b7} Esc cancel"
    };
    push_line(&mut lines, hint.to_string(), false);
    let mut list: Vec<Paint> = Vec::new();
    list.push(Paint::Clear { area });
    list.push(
        Paint::Frame {
            area: block,
            title: " remote authentication ".to_string(),
            style: plain_style(),
            border: plain_style(),
        },
    );
    list.push(Paint::Paragraph { area: block.inside_border(), lines });
    proof {
        let goal = auth_strokes(outer, bounds, prompt@);
        assert(styled_views(lines@) =~= goal[2]->Paragraph_lines);
        assert(strokes(list@) =~= goal);
    }
    list
}

/// Whether a buffer takes the question over the document, where there is one.
pub open spec fn question_fits(bounds: Rect, outer: Rect, prompt: Option<Question>) -> bool {
    prompt matches Some(prompt) ==> all_paintable(bounds, auth_strokes(outer, bounds, prompt))
}

/// Draws a question over the document, on a buffer that takes it. The answer is
/// the cell of the cursor.
pub fn render_auth_overlay(buffer: &mut Buffer, snapshot: &RemoteUiSnapshot, outer: Rect) -> (cursor:
    Option<Position>)
    requires
        question_fits(buffer_area(*old(buffer)), outer, question(snapshot.prompt)),
    ensures
        buffer_area(*final(buffer)) == buffer_area(*old(buffer)),
        match question(snapshot.prompt) {
            None => cursor is None && buffer_cells(*final(buffer)) == buffer_cells(*old(buffer)),
            Some(prompt) => {
                &&& buffer_cells(*final(buffer)) == drawn(
                    buffer_cells(*old(buffer)),
                    buffer_area(*old(buffer)),
                    auth_strokes(outer, buffer_area(*old(buffer)), prompt),
                )
                &&& cursor == Some(auth_cursor(outer, prompt))
            },
        },
{
    let prompt = match &snapshot.prompt {
        Some(prompt) => prompt,
        None => {
            return None;
        },
    };
    let (area, _) = auth_rect(outer);
    let list = auth_paints(outer, area_of(buffer), prompt);
    paint(buffer, &list);
    let column: u16 = area.x.saturating_add(3).saturating_add(
        coordinate_or(prompt.cursor, u16::MAX),
    );
    let last: u16 = area.right().saturating_sub(2);
    Some(
        Position {
            x: if column <= last {
                column
            } else {
                last
            },
            y: area.y.saturating_add(2),
        },
    )
}

/// Draws a question over the document, if there is one and the buffer takes
/// it. The answer holds the cell of the cursor; there is none where the buffer
/// does not take the question.
pub fn try_auth_overlay(buffer: &mut Buffer, snapshot: &RemoteUiSnapshot, outer: Rect) -> (shown:
    Option<Option<Position>>)
    ensures
        buffer_area(*final(buffer)) == buffer_area(*old(buffer)),
        if question_fits(buffer_area(*old(buffer)), outer, question(snapshot.prompt)) {
            match question(snapshot.prompt) {
                None => shown == Some(None::<Position>) && buffer_cells(*final(buffer))
                    == buffer_cells(*old(buffer)),
                Some(prompt) => {
                    &&& buffer_cells(*final(buffer)) == drawn(
                        buffer_cells(*old(buffer)),
                        buffer_area(*old(buffer)),
                        auth_strokes(outer, buffer_area(*old(buffer)), prompt),
                    )
                    &&& shown == Some(Some(auth_cursor(outer, prompt)))
                },
            }
        } else {
            shown is None && *final(buffer) == *old(buffer)
        },
{
    let fits = match &snapshot.prompt {
        Some(prompt) => takes(area_of(buffer), &auth_paints(outer, area_of(buffer), prompt)),
        None => true,
    };
    if fits {
        Some(render_auth_overlay(buffer, snapshot, outer))
    } else {
        None
    }
}

/// The ending of the archive of a remote server.
pub open spec fn archive_extension(windows: bool) -> Seq<char> {
    if windows {
        "zip"@
    } else {
        "gz"@
    }
}

/// The ending of the archive of a remote server.
pub fn expected_extension(windows: bool) -> (extension: &'static str)
    ensures
        extension@ == archive_extension(windows),
{
    if windows {
        "zip"
    } else {
        "gz"
    }
}

/// The name of the archive of the server for a platform.
pub fn archive_name(os: &str, arch: &str, extension: &str) -> (name: String)
    ensures
        name@ == "zec-remote-server-"@ + os@ + "-"@ + arch@ + "."@ + extension@,
{
    let mut name = "zec-remote-server-".to_string();
    name.append(os);
    name.append("-");
    name.append(arch);
    name.append(".");
    name.append(extension);
    name
}

/// Whether an archive has the ending that it needs.
pub fn validate_archive_extension(extension: Option<&str>, expected: &str, path: &str) -> (result:
    Result<(), RemoteError>)
    ensures
        refusal(result) == (if extension matches Some(extension) && extension@ == expected@ {
            None
        } else {
            Some(RemoteFault::ArchiveExtension(expected@, path@))
        }),
{
    let fine = match extension {
        Some(extension) => same_text(extension, expected),
        None => false,
    };
    if fine {
        Ok(())
    } else {
        Err(RemoteError::ArchiveExtension(expected.to_string(), path.to_string()))
    }
}

/// Whether what stands at the path of an archive can be one.
pub fn validate_remote_server_archive(regular: bool, length: u64) -> (result: Result<
    (),
    RemoteError,
>)
    ensures
        refusal(result) == (if !regular {
            Some(RemoteFault::ArchiveIsNotRegular)
        } else if length == 0 {
            Some(RemoteFault::ArchiveIsEmpty)
        } else if length > MAX_REMOTE_ARCHIVE_BYTES {
            Some(RemoteFault::ArchiveTooLarge)
        } else {
            None
        }),
{
    if !regular {
        Err(RemoteError::ArchiveIsNotRegular)
    } else if length == 0 {
        Err(RemoteError::ArchiveIsEmpty)
    } else if length > MAX_REMOTE_ARCHIVE_BYTES {
        Err(RemoteError::ArchiveTooLarge)
    } else {
        Ok(())
    }
}

/// The name of the archive of the server for a platform.
pub open spec fn archive_file(os: Seq<char>, arch: Seq<char>, windows: bool) -> Seq<char> {
    "zec-remote-server-"@ + os + "-"@ + arch + "."@ + archive_extension(windows)
}

/// Where the archive of the server for a platform is looked for: where it was
/// said to be, or beside the program.
pub fn resolve_remote_server_archive(
    given: Option<String>,
    directory: &str,
    os: &str,
    arch: &str,
    windows: bool,
) -> (candidate: String)
    ensures
        candidate@ == match given {
            Some(path) => path@,
            None => joined(directory@, archive_file(os@, arch@, windows)),
        },
{
    match given {
        Some(path) => path,
        None => join(
            directory,
            archive_name(os, arch, expected_extension(windows)).as_str(),
        ),
    }
}

/// Where the archive of the server comes from.
#[derive(Clone, Copy, Debug, PartialEq, Eq, Structural)]
pub enum ArchiveSource {
    /// The file that was found.
    Local,
    /// Nowhere: the file that was said to be it cannot be.
    Refused,
    /// It is downloaded.
    Download,
    /// Nowhere: there is no version to download.
    NeedsArchive,
}

/// Decides where the archive of the server comes from. `valid` tells whether a
/// file was found that can be it, and `given` whether one was said to be it.
pub fn archive_source(valid: bool, given: bool, has_version: bool) -> (source: ArchiveSource)
    ensures
        source == if valid {
            ArchiveSource::Local
        } else if given {
            ArchiveSource::Refused
        } else if has_version {
            ArchiveSource::Download
        } else {
            ArchiveSource::NeedsArchive
        },
{
    if valid {
        ArchiveSource::Local
    } else if given {
        ArchiveSource::Refused
    } else if has_version {
        ArchiveSource::Download
    } else {
        ArchiveSource::NeedsArchive
    }
}

} // verus!
