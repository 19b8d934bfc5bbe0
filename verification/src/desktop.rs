//! The desktop shell's logic: labels and commands of its menu, and the
//! script that switches the embedded page to another workspace.
use vstd::prelude::*;
use crate::config::{home_dir, RecentWorkspace};
use crate::text::{chars_of, decimal, decimal_string, push_char, starts_with, str_starts_with, string_from_chars, sub_chars};

verus! {

/// `path` with the home directory at its start written as `~`.
pub open spec fn shortened(path: Seq<char>, home: Seq<char>) -> Seq<char> {
    if home.len() > 0 && starts_with(path, home) {
        seq!['~'] + path.skip(home.len() as int)
    } else {
        path
    }
}

/// `path` with the home directory `home` at its start written as `~`.
pub fn shorten_path_with(path: &str, home: &str) -> (r: String)
    ensures
        r@ == shortened(path@, home@),
{
    let h = chars_of(home);
    if h.len() > 0 && str_starts_with(path, home) {
        let v = chars_of(path);
        let rest = sub_chars(v.as_slice(), h.len(), v.len());
        let mut r = String::new();
        push_char(&mut r, '~');
        r.append(string_from_chars(rest.as_slice()).as_str());
        proof {
            assert(rest@ =~= path@.skip(home@.len() as int));
            assert(r@ =~= seq!['~'] + path@.skip(home@.len() as int));
        }
        r
    } else {
        path.to_string()
    }
}

/// `path` with the user's home directory at its start written as `~`.
pub fn shorten_path(path: &str) -> (r: String)
    ensures
        exists|home: Seq<char>| r@ == shortened(path@, home),
{
    let home = match home_dir() {
        Some(h) => h,
        None => String::new(),
    };
    shorten_path_with(path, home.as_str())
}

/// What one character becomes inside a single-quoted script string.
pub open spec fn js_escape_char(c: char) -> Seq<char> {
    if c == '\\' {
        seq!['\\', '\\']
    } else if c == '\'' {
        seq!['\\', '\'']
    } else {
        seq![c]
    }
}

/// `s` written inside a single-quoted script string: backslashes doubled,
/// single quotes escaped.
pub open spec fn js_escaped(s: Seq<char>) -> Seq<char>
    decreases s.len(),
{
    if s.len() == 0 {
        Seq::empty()
    } else {
        js_escaped(s.drop_last()) + js_escape_char(s.last())
    }
}

/// `s` written inside a single-quoted script string.
pub fn escape_js_single_quoted(s: &str) -> (r: String)
    ensures
        r@ == js_escaped(s@),
{
    let v = chars_of(s);
    let mut r = String::new();
    let mut i: usize = 0;
    while i < v.len()
        invariant
            i <= v.len(),
            r@ == js_escaped(v@.take(i as int)),
        decreases v.len() - i,
    {
        let c = v[i];
        if c == '\\' {
            push_char(&mut r, '\\');
            push_char(&mut r, '\\');
        } else if c == '\'' {
            push_char(&mut r, '\\');
            push_char(&mut r, '\'');
        } else {
            push_char(&mut r, c);
        }
        proof {
            assert(v@.take(i + 1).drop_last() =~= v@.take(i as int));
            assert(r@ =~= js_escaped(v@.take(i as int)) + js_escape_char(c));
        }
        i += 1;
    }
    assert(v@.take(v.len() as int) =~= v@);
    r
}

/// The script that has the embedded page switch the server to the workspace
/// at `path` and then reload.
pub open spec fn switch_script(path: Seq<char>) -> Seq<char> {
    "function __sw(){fetch('/api/workspace/switch',{method:'POST',headers:{'Content-Type':'application/json'},body:JSON.stringify({path:'"@
        + js_escaped(path)
        + "'})}).then(function(){window.location.href='/'});}if(document.readyState==='complete')__sw();else window.addEventListener('load',__sw);"@
}

/// The script that switches the embedded page to the workspace at `path`.
pub fn workspace_switch_script(path: &str) -> (r: String)
    ensures
        r@ == switch_script(path@),
{
    let mut r = String::from_str(
        "function __sw(){fetch('/api/workspace/switch',{method:'POST',headers:{'Content-Type':'application/json'},body:JSON.stringify({path:'",
    );
    r.append(escape_js_single_quoted(path).as_str());
    r.append(
        "'})}).then(function(){window.location.href='/'});}if(document.readyState==='complete')__sw();else window.addEventListener('load',__sw);",
    );
    r
}

/// The address of the embedded server; port 3000 where none was recorded.
pub open spec fn server_url_for(port: Option<u16>) -> Seq<char> {
    "http://127.0.0.1:"@ + decimal(
        match port {
            Some(p) => p as nat,
            None => 3000,
        },
    )
}

/// The address of the embedded server.
pub fn get_server_url(port: Option<u16>) -> (r: String)
    ensures
        r@ == server_url_for(port),
{
    let p: u16 = match port {
        Some(p) => p,
        None => 3000,
    };
    let mut r = String::from_str("http://127.0.0.1:");
    r.append(decimal_string(p as u64).as_str());
    r
}

/// An entry of the "Open Recent" menu.
#[derive(Debug, Clone)]
pub enum MenuEntry {
    Item { label: String, id: String },
    Separator,
}

/// A menu entry as plain values.
pub enum MenuView {
    Item { label: Seq<char>, id: Seq<char> },
    Separator,
}

/// The menu entries as plain values.
pub open spec fn menu_view(v: Seq<MenuEntry>) -> Seq<MenuView> {
    v.map_values(
        |e: MenuEntry|
            match e {
                MenuEntry::Item { label, id } => MenuView::Item { label: label@, id: id@ },
                MenuEntry::Separator => MenuView::Separator,
            },
    )
}

/// The menu items for the recent entries of one mode, in list order.
pub open spec fn recent_items(list: Seq<RecentWorkspace>, mode: Seq<char>, home: Seq<char>) -> Seq<MenuView>
    decreases list.len(),
{
    if list.len() == 0 {
        Seq::empty()
    } else {
        let prev = recent_items(list.drop_last(), mode, home);
        let e = list.last();
        if e.mode@ == mode {
            prev.push(MenuView::Item { label: shortened(e.path@, home), id: "recent:"@ + e.path@ })
        } else {
            prev
        }
    }
}

/// The "Open Recent" menu: recent files, a separator where both files and
/// directories are listed, recent directories, and, where anything is
/// listed at all, a separator and "Clear Recent".
pub open spec fn recent_menu(list: Seq<RecentWorkspace>, home: Seq<char>) -> Seq<MenuView> {
    let files = recent_items(list, "file"@, home);
    let dirs = recent_items(list, "directory"@, home);
    let sep = if files.len() > 0 && dirs.len() > 0 {
        seq![MenuView::Separator]
    } else {
        Seq::empty()
    };
    let tail = if list.len() > 0 {
        seq![MenuView::Separator, MenuView::Item { label: "Clear Recent"@, id: "clear_recent"@ }]
    } else {
        Seq::empty()
    };
    files + sep + dirs + tail
}

fn push_recent_items(out: &mut Vec<MenuEntry>, list: &Vec<RecentWorkspace>, mode: &str, home: &str)
    ensures
        menu_view(final(out)@) == menu_view(old(out)@) + recent_items(list@, mode@, home@),
{
    let mut i: usize = 0;
    let ghost start = menu_view(out@);
    assert(start + recent_items(list@.take(0), mode@, home@) =~= start);
    while i < list.len()
        invariant
            i <= list.len(),
            start == menu_view(old(out)@),
            menu_view(out@) == start + recent_items(list@.take(i as int), mode@, home@),
        decreases list.len() - i,
    {
        let e = &list[i];
        proof {
            assert(list@.take(i + 1).drop_last() =~= list@.take(i as int));
            assert(list@.take(i + 1).last() == list@[i as int]);
        }
        let m = chars_of(e.mode.as_str());
        let want = chars_of(mode);
        let ghost before = menu_view(out@);
        if crate::text::chars_eq(m.as_slice(), want.as_slice()) {
            let label = shorten_path_with(e.path.as_str(), home);
            let mut id = String::from_str("recent:");
            id.append(e.path.as_str());
            out.push(MenuEntry::Item { label, id });
            proof {
                assert(menu_view(out@) =~= before.push(MenuView::Item { label: shortened(e.path@, home@), id: "recent:"@ + e.path@ }));
            }
        }
        i += 1;
    }
    assert(list@.take(list.len() as int) =~= list@);
}

/// The "Open Recent" menu for the recent list, paths shortened against `home`.
pub fn recent_menu_entries(list: &Vec<RecentWorkspace>, home: &str) -> (r: Vec<MenuEntry>)
    ensures
        menu_view(r@) == recent_menu(list@, home@),
{
    let mut files: Vec<MenuEntry> = Vec::new();
    assert(menu_view(files@) =~= Seq::<MenuView>::empty());
    push_recent_items(&mut files, list, "file", home);
    let mut dirs: Vec<MenuEntry> = Vec::new();
    assert(menu_view(dirs@) =~= Seq::<MenuView>::empty());
    push_recent_items(&mut dirs, list, "directory", home);
    let ghost fv = menu_view(files@);
    let ghost dv = menu_view(dirs@);
    assert(fv =~= recent_items(list@, "file"@, home@));
    assert(dv =~= recent_items(list@, "directory"@, home@));
    let mut out = files;
    let has_files = out.len() > 0;
    if has_files && dirs.len() > 0 {
        out.push(MenuEntry::Separator);
    }
    let ghost mid = menu_view(out@);
    out.append(&mut dirs);
    proof {
        assert(menu_view(out@) =~= mid + dv);
    }
    let ghost body = menu_view(out@);
    if list.len() > 0 {
        out.push(MenuEntry::Separator);
        out.push(MenuEntry::Item { label: String::from_str("Clear Recent"), id: String::from_str("clear_recent") });
        proof {
            assert(menu_view(out@) =~= body + seq![MenuView::Separator, MenuView::Item { label: "Clear Recent"@, id: "clear_recent"@ }]);
        }
    } else {
        assert(body + Seq::<MenuView>::empty() =~= body);
    }
    proof {
        if has_files && dv.len() > 0 {
            assert(mid =~= fv + seq![MenuView::Separator]);
        } else {
            assert(mid =~= fv + Seq::<MenuView>::empty());
        }
    }
    out
}

/// What a click on a menu item asks for.
#[derive(Debug, Clone)]
pub enum MenuCommand {
    OpenFile,
    OpenFolder,
    OpenRecent(String),
    ClearRecent,
    Nothing,
}

/// What a click on the menu item `id` asks for: the item's path for a recent
/// entry, whose id is `recent:` and the path.
pub open spec fn command_for(id: Seq<char>) -> (u8, Seq<char>) {
    if id == "open_file"@ {
        (0, Seq::empty())
    } else if id == "open_folder"@ {
        (1, Seq::empty())
    } else if starts_with(id, "recent:"@) {
        (2, id.skip("recent:"@.len() as int))
    } else if id == "clear_recent"@ {
        (3, Seq::empty())
    } else {
        (4, Seq::empty())
    }
}

/// A command as the code and path of `command_for`.
pub open spec fn command_view(c: MenuCommand) -> (u8, Seq<char>) {
    match c {
        MenuCommand::OpenFile => (0, Seq::empty()),
        MenuCommand::OpenFolder => (1, Seq::empty()),
        MenuCommand::OpenRecent(p) => (2, p@),
        MenuCommand::ClearRecent => (3, Seq::empty()),
        MenuCommand::Nothing => (4, Seq::empty()),
    }
}

/// What a click on the menu item `id` asks for.
pub fn menu_command(id: &str) -> (r: MenuCommand)
    ensures
        command_view(r) == command_for(id@),
{
    let v = chars_of(id);
    if crate::text::chars_eq(v.as_slice(), chars_of("open_file").as_slice()) {
        MenuCommand::OpenFile
    } else if crate::text::chars_eq(v.as_slice(), chars_of("open_folder").as_slice()) {
        MenuCommand::OpenFolder
    } else if str_starts_with(id, "recent:") {
        let n = chars_of("recent:").len();
        let rest = sub_chars(v.as_slice(), n, v.len());
        proof {
            assert(rest@ =~= id@.skip("recent:"@.len() as int));
        }
        MenuCommand::OpenRecent(string_from_chars(rest.as_slice()))
    } else if crate::text::chars_eq(v.as_slice(), chars_of("clear_recent").as_slice()) {
        MenuCommand::ClearRecent
    } else {
        MenuCommand::Nothing
    }
}

/// Where the command-line tool is linked: the first of the Homebrew and the
/// `/usr/local` binary directories that exists, else `/usr/local`.
pub fn cli_destination(homebrew_bin_exists: bool, usr_local_bin_exists: bool) -> (r: &'static str)
    ensures
        r@ == (if homebrew_bin_exists {
            "/opt/homebrew/bin/mdlive"@
        } else {
            "/usr/local/bin/mdlive"@
        }),
{
    if homebrew_bin_exists {
        "/opt/homebrew/bin/mdlive"
    } else if usr_local_bin_exists {
        "/usr/local/bin/mdlive"
    } else {
        "/usr/local/bin/mdlive"
    }
}

} // verus!
