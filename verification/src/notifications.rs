//! Building the AppleScript text of desktop notifications.
use vstd::prelude::*;
use crate::text::push_char;

verus! {

/// The characters of `s` with every backslash and double quote escaped by a
/// preceding backslash, as an AppleScript string literal needs.
pub open spec fn escaped(s: Seq<char>) -> Seq<char>
    decreases s.len(),
{
    if s.len() == 0 {
        Seq::empty()
    } else {
        let c = s.last();
        let head = escaped(s.drop_last());
        if c == '\\' || c == '"' {
            head.push('\\').push(c)
        } else {
            head.push(c)
        }
    }
}

/// Escapes backslashes and double quotes so that `s` can stand inside an
/// AppleScript string literal.
pub fn escape_applescript(s: &str) -> (res: String)
    ensures
        res@ == escaped(s@),
{
    let n = s.unicode_len();
    let mut out = String::new();
    let mut i: usize = 0;
    while i < n
        invariant
            n == s@.len(),
            i <= n,
            out@ == escaped(s@.subrange(0, i as int)),
        decreases n - i,
    {
        let c = s.get_char(i);
        assert(s@.subrange(0, i + 1).drop_last() == s@.subrange(0, i as int));
        if c == '\\' || c == '"' {
            push_char(&mut out, '\\');
        }
        push_char(&mut out, c);
        i = i + 1;
    }
    assert(s@.subrange(0, n as int) == s@);
    out
}

/// A desktop notification: a title and a message.
pub struct Notification {
    pub title: String,
    pub message: String,
}

/// The AppleScript that shows a notification with this title and message.
pub open spec fn script_text(title: Seq<char>, message: Seq<char>) -> Seq<char> {
    "display notification \""@ + escaped(message) + "\" with title \""@ + escaped(title)
        + "\""@
}

impl Notification {
    /// The AppleScript command that displays this notification.
    pub fn script(&self) -> (res: String)
        ensures
            res@ == script_text(self.title@, self.message@),
    {
        let mut out = String::from_str("display notification \"");
        let m = escape_applescript(self.message.as_str());
        out.append(m.as_str());
        out.append("\" with title \"");
        let t = escape_applescript(self.title.as_str());
        out.append(t.as_str());
        out.append("\"");
        out
    }
}

/// The notification to send when an application was stopped from starting;
/// the caller delivers it (see `Notification::script`).
pub fn send_app_blocked_notification(app_name: &str) -> (n: Notification)
    ensures
        n.title@ == "Antidistractor"@,
        n.message@ == "已阻止 \""@ + app_name@ + "\" 启动"@,
{
    let mut message = String::from_str("已阻止 \"");
    message.append(app_name);
    message.append("\" 启动");
    Notification { title: String::from_str("Antidistractor"), message }
}

/// The notification to send when a domain was blocked.
pub fn send_domain_blocked_notification(domain: &str) -> (n: Notification)
    ensures
        n.title@ == "Antidistractor"@,
        n.message@ == "已封锁域名: "@ + domain@,
{
    let mut message = String::from_str("已封锁域名: ");
    message.append(domain);
    Notification { title: String::from_str("Antidistractor"), message }
}

/// The notification to send when the screen was locked for the rest period.
pub fn send_screen_lock_notification() -> (n: Notification)
    ensures
        n.title@ == "Antidistractor - 强制锁屏"@,
        n.message@ == "当前为休息时段 (01:00-07:00)，屏幕已锁定"@,
{
    Notification {
        title: String::from_str("Antidistractor - 强制锁屏"),
        message: String::from_str("当前为休息时段 (01:00-07:00)，屏幕已锁定"),
    }
}

/// The text that an AppleScript string literal with this body stands for: a
/// backslash takes the next character as it is.
pub open spec fn unescaped(s: Seq<char>) -> Seq<char>
    decreases s.len(),
{
    if s.len() == 0 {
        Seq::empty()
    } else if s[0] == '\\' && s.len() >= 2 {
        seq![s[1]] + unescaped(s.skip(2))
    } else {
        seq![s[0]] + unescaped(s.drop_first())
    }
}

/// Escaping a text escapes each of its parts.
pub proof fn lemma_escaped_concat(a: Seq<char>, b: Seq<char>)
    ensures
        escaped(a + b) == escaped(a) + escaped(b),
    decreases b.len(),
{
    if b.len() == 0 {
        assert(a + b =~= a);
        assert(escaped(a) + escaped(b) =~= escaped(a));
    } else {
        lemma_escaped_concat(a, b.drop_last());
        assert((a + b).drop_last() =~= a + b.drop_last());
        assert((a + b).last() == b.last());
        let c = b.last();
        if c == '\\' || c == '"' {
            assert(escaped(a + b) =~= escaped(a) + escaped(b));
        } else {
            assert(escaped(a + b) =~= escaped(a) + escaped(b));
        }
    }
}

/// An escaped text, read back as an AppleScript string literal, is the text
/// itself: escaping loses nothing.
pub proof fn lemma_escape_round_trip(s: Seq<char>)
    ensures
        unescaped(escaped(s)) == s,
    decreases s.len(),
{
    if s.len() > 0 {
        let c = s[0];
        let rest = s.drop_first();
        assert(s =~= seq![c] + rest);
        lemma_escaped_concat(seq![c], rest);
        assert(seq![c].drop_last() =~= Seq::<char>::empty());
        assert(seq![c].last() == c);
        assert(escaped(Seq::<char>::empty()) == Seq::<char>::empty());
        assert(escaped(seq![c].drop_last()) == Seq::<char>::empty());
        lemma_escape_round_trip(rest);
        let e = escaped(s);
        if c == '\\' || c == '"' {
            assert(escaped(seq![c]) =~= seq!['\\', c]);
            assert(e =~= seq!['\\', c] + escaped(rest));
            assert(e.skip(2) =~= escaped(rest));
            assert(unescaped(e) =~= seq![c] + unescaped(escaped(rest)));
        } else {
            assert(escaped(seq![c]) =~= seq![c]);
            assert(e =~= seq![c] + escaped(rest));
            assert(e.drop_first() =~= escaped(rest));
            assert(unescaped(e) =~= seq![c] + unescaped(escaped(rest)));
        }
    }
}

} // verus!
