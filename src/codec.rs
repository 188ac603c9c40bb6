use vstd::prelude::*;

verus! {

/// The separator placed between a message's role and its content.
pub open spec fn delimiter() -> Seq<char> {
    seq![':', ' ']
}

/// Whether the delimiter starts at position `i` of `s`.
pub open spec fn delimiter_at(s: Seq<char>, i: int) -> bool {
    0 <= i && i + 1 < s.len() && s[i] == ':' && s[i + 1] == ' '
}

/// Whether `s` holds the delimiter anywhere.
pub open spec fn has_delimiter(s: Seq<char>) -> bool {
    exists|i: int| delimiter_at(s, i)
}

/// Whether `i` is the first position at which the delimiter starts in `s`.
pub open spec fn first_delimiter_at(s: Seq<char>, i: int) -> bool {
    delimiter_at(s, i) && forall|j: int| 0 <= j < i ==> !delimiter_at(s, j)
}

/// A role is valid when the delimiter does not occur in it.
pub open spec fn valid_role(role: Seq<char>) -> bool {
    !has_delimiter(role)
}

/// The stored line of a message: its role, the delimiter, then its content.
pub open spec fn encode_spec(role: Seq<char>, content: Seq<char>) -> Seq<char> {
    role + delimiter() + content
}

/// A stored line split on the first delimiter into (role, content);
/// nothing when the line holds no delimiter.
pub open spec fn decode_spec(s: Seq<char>) -> Option<(Seq<char>, Seq<char>)> {
    if exists|i: int| first_delimiter_at(s, i) {
        let i = choose|i: int| first_delimiter_at(s, i);
        Some((s.subrange(0, i), s.subrange(i + 2, s.len() as int)))
    } else {
        None
    }
}

/// The content that a stored line carries: what follows the first
/// delimiter, or the empty text when there is none.
pub open spec fn content_spec(s: Seq<char>) -> Seq<char> {
    match decode_spec(s) {
        Some(m) => m.1,
        None => Seq::empty(),
    }
}

/// One conversational turn.
pub struct Message {
    pub role: String,
    pub content: String,
}

impl View for Message {
    type V = (Seq<char>, Seq<char>);

    open spec fn view(&self) -> (Seq<char>, Seq<char>) {
        (self.role@, self.content@)
    }
}

impl Clone for Message {
    fn clone(&self) -> (r: Message)
        ensures
            r@ == self@,
    {
        Message { role: self.role.clone(), content: self.content.clone() }
    }
}

proof fn lemma_first_delimiter_unique(s: Seq<char>, i: int, k: int)
    requires
        first_delimiter_at(s, i),
        first_delimiter_at(s, k),
    ensures
        i == k,
{
    if i < k {
        assert(!delimiter_at(s, i));
    } else if k < i {
        assert(!delimiter_at(s, k));
    }
}

/// What `decode_spec` gives once the first delimiter is known.
pub proof fn lemma_decode_at(s: Seq<char>, i: int)
    requires
        first_delimiter_at(s, i),
    ensures
        decode_spec(s) == Some((s.subrange(0, i), s.subrange(i + 2, s.len() as int))),
{
    let k = choose|k: int| first_delimiter_at(s, k);
    lemma_first_delimiter_unique(s, i, k);
}

/// A line that holds no delimiter decodes to nothing.
pub proof fn lemma_decode_without_delimiter(s: Seq<char>)
    requires
        !has_delimiter(s),
    ensures
        decode_spec(s) is None,
        content_spec(s) == Seq::<char>::empty(),
{
    if exists|i: int| first_delimiter_at(s, i) {
        let i = choose|i: int| first_delimiter_at(s, i);
        assert(delimiter_at(s, i));
    }
}

/// Decoding the line of a message with a valid role gives back that message.
pub proof fn lemma_round_trip(role: Seq<char>, content: Seq<char>)
    requires
        valid_role(role),
    ensures
        decode_spec(encode_spec(role, content)) == Some((role, content)),
{
    let s = encode_spec(role, content);
    let n = role.len() as int;
    assert(s[n] == ':' && s[n + 1] == ' ');
    assert forall|j: int| 0 <= j < n implies !delimiter_at(s, j) by {
        if delimiter_at(s, j) {
            if j + 1 < n {
                assert(delimiter_at(role, j));
            } else {
                assert(s[j + 1] == ':');
            }
        }
    }
    assert(first_delimiter_at(s, n));
    lemma_decode_at(s, n);
    assert(s.subrange(0, n) =~= role);
    assert(s.subrange(n + 2, s.len() as int) =~= content);
}

/// The stored line of a message.
pub fn encode(m: &Message) -> (r: String)
    ensures
        r@ == encode_spec(m.role@, m.content@),
{
    let mut r = m.role.clone();
    proof {
        reveal_strlit(": ");
    }
    r.append(": ");
    r.append(m.content.as_str());
    assert(r@ =~= encode_spec(m.role@, m.content@));
    r
}

/// The position of the first delimiter in `line`, if any.
fn find_delimiter(line: &str) -> (r: Option<usize>)
    ensures
        match r {
            Some(i) => first_delimiter_at(line@, i as int),
            None => !has_delimiter(line@),
        },
{
    let n = line.unicode_len();
    let mut i: usize = 0;
    while n - i >= 2
        invariant
            n == line@.len(),
            i <= n,
            forall|j: int| 0 <= j < i ==> !delimiter_at(line@, j),
        decreases n - i,
    {
        if line.get_char(i) == ':' && line.get_char(i + 1) == ' ' {
            return Some(i);
        }
        i = i + 1;
    }
    assert forall|j: int| !delimiter_at(line@, j) by {
        if delimiter_at(line@, j) {
            assert(j < i);
        }
    }
    None
}

/// Splits a stored line on its first delimiter; a line without one is
/// dropped rather than refused.
pub fn decode(line: &str) -> (r: Option<Message>)
    ensures
        match r {
            Some(m) => decode_spec(line@) == Some(m@),
            None => decode_spec(line@) is None,
        },
{
    match find_delimiter(line) {
        Some(i) => {
            let n = line.unicode_len();
            let role = line.substring_char(0, i);
            let content = line.substring_char(i + 2, n);
            proof {
                lemma_decode_at(line@, i as int);
            }
            Some(Message { role: role.to_string(), content: content.to_string() })
        },
        None => {
            proof {
                lemma_decode_without_delimiter(line@);
            }
            None
        },
    }
}

/// The content of a stored line, or the empty text when it holds no delimiter.
pub fn content_of(line: &str) -> (r: String)
    ensures
        r@ == content_spec(line@),
{
    match decode(line) {
        Some(m) => m.content,
        None => String::new(),
    }
}

} // verus!
