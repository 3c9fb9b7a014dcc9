use docopt::Docopt;
use tealdeer::pager::{choose_pager, PagerChoice};
use tealdeer::error::{CoreError, FormatFault};
use tealdeer::platform::PlatformKind;
use tealdeer::{get_os, init_log};

const USAGE: &str = "
Usage:

    tldr [options] <command>...
    tldr [options]

Options:

    -h --help           Show this screen
    -v --version        Show version information
    -l --list           List all commands in the cache
    -f --render <file>  Render a specific markdown file
    -o --os <type>      Override the operating system [linux, osx, sunos, windows]
    -u --update         Update the local cache
    -c --clear-cache    Clear the local cache
    -p --pager          Use a pager to page output
    -m --markdown       Display the raw markdown instead of rendering it
    -q --quiet          Suppress informational messages
    --config-path       Show config file path
    --seed-config       Create a basic config
";

fn test_helper(argv: &[&str]) -> Result<Option<PlatformKind>, String> {
    let args = Docopt::new(USAGE)
        .and_then(|d| d.argv(argv.iter()).parse())
        .map_err(|e| e.to_string())?;
    match args.get_str("--os") {
        "" => Ok(None),
        name => match PlatformKind::from_name(name) {
            Some(os) => Ok(Some(os)),
            None => Err(format!("no such platform: {}", name)),
        },
    }
}

#[test]
fn test_docopt_os_case_insensitive() {
    let argv = vec!["cp", "--os", "LiNuX"];
    let os = test_helper(&argv).unwrap().unwrap();
    assert_eq!(PlatformKind::Linux, os);
}

#[test]
fn test_docopt_expect_error() {
    let argv = vec!["cp", "--os", "lindows"];
    assert!(!test_helper(&argv).is_ok());
}

#[test]
fn platforms_are_named_in_any_case() {
    assert_eq!(PlatformKind::from_name("linux"), Some(PlatformKind::Linux));
    assert_eq!(PlatformKind::from_name("OSX"), Some(PlatformKind::OsX));
    assert_eq!(PlatformKind::from_name("SunOS"), Some(PlatformKind::SunOS));
    assert_eq!(PlatformKind::from_name("Windows"), Some(PlatformKind::Windows));
    assert_eq!(PlatformKind::from_name("other"), None);
    assert_eq!(PlatformKind::from_name(""), None);
    assert_eq!(PlatformKind::from_name("linux "), None);
    assert_eq!(PlatformKind::from_name("macos"), None);
}

#[test]
fn platform_has_its_subdirectory() {
    assert_eq!(PlatformKind::Linux.subdirectory(), Some("linux"));
    assert_eq!(PlatformKind::OsX.subdirectory(), Some("osx"));
    assert_eq!(PlatformKind::SunOS.subdirectory(), Some("sunos"));
    assert_eq!(PlatformKind::Windows.subdirectory(), Some("windows"));
    assert_eq!(PlatformKind::Other.subdirectory(), None);
}

#[test]
fn platform_of_the_machine_goes_by_its_system() {
    assert_eq!(get_os("linux"), PlatformKind::Linux);
    assert_eq!(get_os("macos"), PlatformKind::OsX);
    assert_eq!(get_os("freebsd"), PlatformKind::OsX);
    assert_eq!(get_os("netbsd"), PlatformKind::OsX);
    assert_eq!(get_os("openbsd"), PlatformKind::OsX);
    assert_eq!(get_os("dragonfly"), PlatformKind::OsX);
    assert_eq!(get_os("windows"), PlatformKind::Windows);
    assert_eq!(get_os("solaris"), PlatformKind::Other);
    assert_eq!(get_os("Linux"), PlatformKind::Other);
    assert_eq!(get_os(""), PlatformKind::Other);
}

#[test]
fn log_can_be_prepared_more_than_once() {
    init_log();
    init_log();
}

#[test]
fn flag_or_configuration_asks_for_the_pager() {
    assert_eq!(choose_pager(PlatformKind::Linux, true, false), PagerChoice::Paged);
    assert_eq!(choose_pager(PlatformKind::Linux, false, true), PagerChoice::Paged);
    assert_eq!(choose_pager(PlatformKind::OsX, true, true), PagerChoice::Paged);
    assert_eq!(choose_pager(PlatformKind::Other, false, false), PagerChoice::Direct);
}

#[test]
fn windows_has_no_pager() {
    assert_eq!(choose_pager(PlatformKind::Windows, true, true), PagerChoice::Unavailable);
    assert_eq!(choose_pager(PlatformKind::Windows, false, false), PagerChoice::Unavailable);
}

#[test]
fn platform_has_a_name_for_the_user() {
    assert_eq!(PlatformKind::Linux.label(), "Linux");
    assert_eq!(PlatformKind::OsX.label(), "macOS / BSD");
    assert_eq!(PlatformKind::SunOS.label(), "SunOS");
    assert_eq!(PlatformKind::Windows.label(), "Windows");
    assert_eq!(PlatformKind::Other.label(), "Unknown OS");
}

#[test]
fn every_failure_has_its_words() {
    assert_eq!(CoreError::NetworkError.describe(), "the archive could not be fetched");
    assert_eq!(CoreError::ArchiveError.describe(), "the archive could not be unpacked");
    assert_eq!(
        CoreError::FilesystemError { cause: 13 }.describe(),
        "the file system refused an operation"
    );
    assert_eq!(CoreError::ConfigError.describe(), "the configuration could not be used");
    assert_eq!(
        CoreError::FormatError(FormatFault::MissingHeading).describe(),
        "the page does not begin with a heading"
    );
    assert_eq!(
        FormatFault::UnknownMarker.describe(),
        "a line of the page begins with no known marker"
    );
    assert_eq!(
        FormatFault::UnterminatedFence.describe(),
        "a code fence of the page is never closed"
    );
    assert_eq!(FormatFault::TrailingText.describe(), "text follows a code fence on its line");
}
