//! Searching and composing texts.
use vstd::prelude::*;
use vstd::string::*;

verus! {

/// Whether `pattern` occurs in `text`, one character after the other.
pub open spec fn occurs(pattern: Seq<char>, text: Seq<char>) -> bool {
    exists|start: int|
        0 <= start <= text.len() - pattern.len() && #[trigger] text.subrange(
            start,
            start + pattern.len(),
        ) == pattern
}

/// Whether a character has the Unicode property `White_Space`.
pub open spec fn is_space(c: char) -> bool {
    let code = c as u32;
    ||| 0x9 <= code <= 0xd
    ||| code == 0x20
    ||| code == 0x85
    ||| code == 0xa0
    ||| code == 0x1680
    ||| 0x2000 <= code <= 0x200a
    ||| code == 0x2028
    ||| code == 0x2029
    ||| code == 0x202f
    ||| code == 0x205f
    ||| code == 0x3000
}

/// Whether a text is nothing but white space.
pub open spec fn is_blank_text(text: Seq<char>) -> bool {
    forall|i: int| 0 <= i < text.len() ==> is_space(#[trigger] text[i])
}

/// Whether `trimmed` is `text` without the white space before and behind it.
pub open spec fn is_trimmed(trimmed: Seq<char>, text: Seq<char>) -> bool {
    exists|from: int, to: int|
        {
            &&& 0 <= from <= to <= text.len()
            &&& trimmed == #[trigger] text.subrange(from, to)
            &&& forall|i: int| 0 <= i < from ==> is_space(#[trigger] text[i])
            &&& forall|i: int| to <= i < text.len() ==> is_space(#[trigger] text[i])
            &&& from < to ==> !is_space(text[from]) && !is_space(text[to - 1])
        }
}

/// Calls `str::contains` with a text as the pattern: it says whether the
/// pattern is a part of the text, character for character.
#[verifier::external_body]
pub(crate) fn contains(text: &String, pattern: &String) -> (found: bool)
    ensures
        found == occurs(pattern@, text@),
{
    text.contains(pattern.as_str())
}

/// Calls `str::trim`: it cuts the characters with the Unicode property
/// `White_Space` off both ends of a text and leaves what is between.
#[verifier::external_body]
fn trim(text: &String) -> (trimmed: &str)
    ensures
        is_trimmed(trimmed@, text@),
{
    text.trim()
}

/// Whether a text is nothing but white space.
pub fn is_blank(text: &String) -> (blank: bool)
    ensures
        blank == is_blank_text(text@),
{
    let trimmed = trim(text);
    trimmed.is_empty()
}

/// The notice that a player has said the own forbidden word.
pub open spec fn spoken_text(name: Seq<char>, word: Seq<char>) -> Seq<char> {
    "玩家 "@ + name + " 因说出NG词 "@ + word + " 而出局！"@
}

/// The notice that a player has given up.
pub open spec fn suicide_text(name: Seq<char>) -> Seq<char> {
    "玩家 "@ + name + " 自爆出局！"@
}

/// The notice that a player in the running has left.
pub open spec fn quit_text(name: Seq<char>) -> Seq<char> {
    "玩家 "@ + name + " 因为退出游戏而出局！"@
}

/// Writes the notice that a player has said the own forbidden word.
pub fn spoken_notice(name: &String, word: &String) -> (notice: String)
    ensures
        notice@ == spoken_text(name@, word@),
{
    let mut notice = "玩家 ".to_owned();
    notice.append(name.as_str());
    notice.append(" 因说出NG词 ");
    notice.append(word.as_str());
    notice.append(" 而出局！");
    notice
}

/// Writes the notice that a player has given up.
pub fn suicide_notice(name: &String) -> (notice: String)
    ensures
        notice@ == suicide_text(name@),
{
    let mut notice = "玩家 ".to_owned();
    notice.append(name.as_str());
    notice.append(" 自爆出局！");
    notice
}

/// Writes the notice that a player in the running has left.
pub fn quit_notice(name: &String) -> (notice: String)
    ensures
        notice@ == quit_text(name@),
{
    let mut notice = "玩家 ".to_owned();
    notice.append(name.as_str());
    notice.append(" 因为退出游戏而出局！");
    notice
}

} // verus!
