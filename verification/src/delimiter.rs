//! The fixed delimiter set: ASCII whitespace and punctuation together
//! with a curated list of CJK and full-width punctuation marks.  Text is
//! split into chunks at these characters, and a token consisting of one
//! of them passes through conversion verbatim.

use vstd::prelude::*;

verus! {

/// Whether `c` belongs to the fixed delimiter set.
pub open spec fn is_delim(c: char) -> bool {
    c == ' '
    || c == '\t'
    || c == '\n'
    || c == '\r'
    || c == '!'
    || c == '"'
    || c == '#'
    || c == '$'
    || c == '%'
    || c == '&'
    || c == '\''
    || c == '('
    || c == ')'
    || c == '*'
    || c == '+'
    || c == ','
    || c == '-'
    || c == '.'
    || c == '/'
    || c == ':'
    || c == ';'
    || c == '<'
    || c == '='
    || c == '>'
    || c == '?'
    || c == '@'
    || c == '['
    || c == '\\'
    || c == ']'
    || c == '^'
    || c == '_'
    || c == '{'
    || c == '}'
    || c == '|'
    || c == '~'
    || c == '＝'
    || c == '、'
    || c == '。'
    || c == '“'
    || c == '”'
    || c == '‘'
    || c == '’'
    || c == '『'
    || c == '』'
    || c == '「'
    || c == '」'
    || c == '﹁'
    || c == '﹂'
    || c == '—'
    || c == '－'
    || c == '（'
    || c == '）'
    || c == '《'
    || c == '》'
    || c == '〈'
    || c == '〉'
    || c == '？'
    || c == '！'
    || c == '…'
    || c == '／'
    || c == '＼'
    || c == '︒'
    || c == '︑'
    || c == '︔'
    || c == '︓'
    || c == '︿'
    || c == '﹀'
    || c == '︹'
    || c == '︺'
    || c == '︙'
    || c == '︐'
    || c == '［'
    || c == '﹇'
    || c == '］'
    || c == '﹈'
    || c == '︕'
    || c == '︖'
    || c == '︰'
    || c == '︳'
    || c == '︴'
    || c == '︽'
    || c == '︾'
    || c == '︵'
    || c == '︶'
    || c == '｛'
    || c == '︷'
    || c == '｝'
    || c == '︸'
    || c == '﹃'
    || c == '﹄'
    || c == '【'
    || c == '︻'
    || c == '】'
    || c == '︼'
    || c == '　'
    || c == '～'
    || c == '．'
    || c == '，'
    || c == '；'
    || c == '：'
}

/// Whether `c` belongs to the fixed delimiter set.
pub fn is_delimiter(c: char) -> (r: bool)
    ensures
        r == is_delim(c),
{
    match c {
        ' ' | '\t' | '\n' | '\r' | '!' | '"' | '#' | '$' | '%' | '&' | '\'' | '(' | ')' | '*' | '+' | ',' | '-' | '.' | '/' | ':'
        | ';' | '<' | '=' | '>' | '?' | '@' | '[' | '\\' | ']' | '^' | '_' | '{' | '}' | '|' | '~' | '＝' | '、' | '。' | '“' | '”'
        | '‘' | '’' | '『' | '』' | '「' | '」' | '﹁' | '﹂' | '—' | '－' | '（' | '）' | '《' | '》' | '〈' | '〉' | '？' | '！' | '…' | '／'
        | '＼' | '︒' | '︑' | '︔' | '︓' | '︿' | '﹀' | '︹' | '︺' | '︙' | '︐' | '［' | '﹇' | '］' | '﹈' | '︕' | '︖' | '︰' | '︳' | '︴'
        | '︽' | '︾' | '︵' | '︶' | '｛' | '︷' | '｝' | '︸' | '﹃' | '﹄' | '【' | '︻' | '】' | '︼' | '　' | '～' | '．' | '，' | '；' | '：' => true,
        _ => false,
    }
}

} // verus!
