use vstd::prelude::*;
use vstd::string::*;

verus! {

pub open spec fn is_base_type(c: char) -> bool {
    c == 'B' || c == 'C' || c == 'D' || c == 'F' || c == 'I' || c == 'J' || c == 'S' || c == 'Z'
}

/// Characters that an unqualified name may not hold.
pub open spec fn is_name_breaker(c: char) -> bool {
    c == '.' || c == ';' || c == '[' || c == '/'
}

/// Scans the body of an `L...;` object type from `k`: slash-separated non-empty
/// segments of name characters up to the closing `;`. The position after `;`.
pub open spec fn class_body_end(s: Seq<char>, k: int, at_segment_start: bool) -> Option<int>
    decreases s.len() - k,
{
    if k < 0 || k >= s.len() {
        None
    } else if s[k] == ';' {
        if at_segment_start { None } else { Some(k + 1) }
    } else if s[k] == '/' {
        if at_segment_start { None } else { class_body_end(s, k + 1, true) }
    } else if s[k] == '.' || s[k] == '[' {
        None
    } else {
        class_body_end(s, k + 1, false)
    }
}

/// The position just after the field type that starts at `i`, if one does.
pub open spec fn field_type_end(s: Seq<char>, i: int) -> Option<int>
    decreases s.len() - i,
{
    if i < 0 || i >= s.len() {
        None
    } else if is_base_type(s[i]) {
        Some(i + 1)
    } else if s[i] == 'L' {
        class_body_end(s, i + 1, true)
    } else if s[i] == '[' {
        field_type_end(s, i + 1)
    } else {
        None
    }
}

/// The position just after the parameter list's closing `)`, scanning from `i`.
pub open spec fn params_end(s: Seq<char>, i: int) -> Option<int>
    decreases s.len() - i,
{
    if i < 0 || i >= s.len() {
        None
    } else if s[i] == ')' {
        Some(i + 1)
    } else {
        match field_type_end(s, i) {
            Some(j) => if i < j <= s.len() { params_end(s, j) } else { None },
            None => None,
        }
    }
}

pub open spec fn spec_is_field_descriptor(s: Seq<char>) -> bool {
    field_type_end(s, 0) == Some(s.len() as int)
}

pub open spec fn spec_is_return_descriptor(s: Seq<char>) -> bool {
    s == seq!['V'] || spec_is_field_descriptor(s)
}

pub open spec fn spec_is_method_descriptor(s: Seq<char>) -> bool {
    s.len() > 0 && s[0] == '(' && match params_end(s, 1) {
        Some(k) => spec_is_return_descriptor(s.subrange(k, s.len() as int)),
        None => false,
    }
}

pub open spec fn init_name() -> Seq<char> {
    seq!['<', 'i', 'n', 'i', 't', '>']
}

pub open spec fn clinit_name() -> Seq<char> {
    seq!['<', 'c', 'l', 'i', 'n', 'i', 't', '>']
}

pub open spec fn spec_is_unqualified_name(s: Seq<char>, allow_init: bool, allow_clinit: bool) -> bool {
    &&& s.len() > 0
    &&& forall|i: int| 0 <= i < s.len() ==> !is_name_breaker(#[trigger] s[i])
    &&& s == init_name() ==> allow_init
    &&& s == clinit_name() ==> allow_clinit
}

fn class_body_end_exec(s: &str, start: usize) -> (r: Option<usize>)
    requires
        start <= s@.len(),
    ensures
        r is Some <==> class_body_end(s@, start as int, true) is Some,
        r is Some ==> r->Some_0 as int == class_body_end(s@, start as int, true)->Some_0,
        r is Some ==> r->Some_0 <= s@.len(),
{
    let n = s.unicode_len();
    let mut k = start;
    let mut at_start = true;
    while k < n
        invariant
            n == s@.len(),
            start <= k <= n,
            class_body_end(s@, start as int, true) == class_body_end(s@, k as int, at_start),
        decreases n - k,
    {
        let c = s.get_char(k);
        if c == ';' {
            if at_start {
                return None;
            }
            return Some(k + 1);
        } else if c == '/' {
            if at_start {
                return None;
            }
            at_start = true;
        } else if c == '.' || c == '[' {
            return None;
        } else {
            at_start = false;
        }
        k = k + 1;
    }
    None
}

fn field_type_end_exec(s: &str, start: usize) -> (r: Option<usize>)
    requires
        start <= s@.len(),
    ensures
        r is Some <==> field_type_end(s@, start as int) is Some,
        r is Some ==> r->Some_0 as int == field_type_end(s@, start as int)->Some_0,
        r is Some ==> start < r->Some_0 <= s@.len(),
{
    let n = s.unicode_len();
    let mut i = start;
    while i < n
        invariant
            n == s@.len(),
            start <= i <= n,
            field_type_end(s@, start as int) == field_type_end(s@, i as int),
        decreases n - i,
    {
        let c = s.get_char(i);
        if c == 'B' || c == 'C' || c == 'D' || c == 'F' || c == 'I' || c == 'J' || c == 'S' || c == 'Z' {
            return Some(i + 1);
        } else if c == 'L' {
            let r = class_body_end_exec(s, i + 1);
            proof { lemma_class_body_end_after(s@, i as int + 1, true); }
            return r;
        } else if c == '[' {
            i = i + 1;
        } else {
            return None;
        }
    }
    None
}

proof fn lemma_class_body_end_after(s: Seq<char>, k: int, at: bool)
    ensures
        class_body_end(s, k, at) is Some ==> k < class_body_end(s, k, at)->Some_0 <= s.len(),
    decreases s.len() - k,
{
    if 0 <= k < s.len() && s[k] != ';' && s[k] != '.' && s[k] != '[' {
        if s[k] == '/' {
            lemma_class_body_end_after(s, k + 1, true);
        } else {
            lemma_class_body_end_after(s, k + 1, false);
        }
    }
}

/// Whether `s` is exactly one field descriptor (a base type, `L<class>;` or an array of one).
pub fn is_field_descriptor(s: &str) -> (r: bool)
    ensures
        r == spec_is_field_descriptor(s@),
{
    if s.unicode_len() == 0 {
        return false;
    }
    match field_type_end_exec(s, 0) {
        Some(j) => j == s.unicode_len(),
        None => false,
    }
}

/// Whether `s` is `V` or a field descriptor.
pub fn is_return_descriptor(s: &str) -> (r: bool)
    ensures
        r == spec_is_return_descriptor(s@),
{
    if s.unicode_len() == 1 && s.get_char(0) == 'V' {
        assert(s@ =~= seq!['V']);
        return true;
    }
    assert(s@.len() != 1 || s@[0] != 'V' ==> s@ != seq!['V']);
    if s.unicode_len() == 0 {
        return false;
    }
    match field_type_end_exec(s, 0) {
        Some(j) => j == s.unicode_len(),
        None => false,
    }
}

/// Whether `s` is `(` field descriptors `)` followed by a return descriptor.
pub fn is_method_descriptor(s: &str) -> (r: bool)
    ensures
        r == spec_is_method_descriptor(s@),
{
    let n = s.unicode_len();
    if n == 0 || s.get_char(0) != '(' {
        return false;
    }
    let mut i: usize = 1;
    while i < n
        invariant
            n == s@.len(),
            1 <= i <= n,
            s@[0] == '(',
            params_end(s@, 1) == params_end(s@, i as int),
        decreases n - i,
    {
        if s.get_char(i) == ')' {
            let k = i + 1;
            let tail = s.substring_char(k, n);
            assert(tail@ =~= s@.subrange(k as int, n as int));
            return is_return_descriptor(tail);
        }
        match field_type_end_exec(s, i) {
            Some(j) => {
                i = j;
            },
            None => {
                return false;
            },
        }
    }
    false
}

/// Whether `s` is a non-empty name free of `.`, `;`, `[` and `/`; `<init>` and
/// `<clinit>` pass only where allowed.
pub fn is_unqualified_name(s: &str, allow_init: bool, allow_clinit: bool) -> (r: bool)
    ensures
        r == spec_is_unqualified_name(s@, allow_init, allow_clinit),
{
    let n = s.unicode_len();
    if n == 0 {
        return false;
    }
    let mut i: usize = 0;
    while i < n
        invariant
            n == s@.len(),
            i <= n,
            forall|k: int| 0 <= k < i ==> !is_name_breaker(#[trigger] s@[k]),
        decreases n - i,
    {
        let c = s.get_char(i);
        if c == '.' || c == ';' || c == '[' || c == '/' {
            return false;
        }
        i = i + 1;
    }
    if equals_chars(s, &['<', 'i', 'n', 'i', 't', '>']) {
        assert(s@ =~= init_name());
        return allow_init;
    }
    if equals_chars(s, &['<', 'c', 'l', 'i', 'n', 'i', 't', '>']) {
        assert(s@ =~= clinit_name());
        return allow_clinit;
    }
    assert(s@ != init_name());
    assert(s@ != clinit_name());
    true
}

/// Whether the characters of `s` are exactly `t`.
pub fn equals_chars(s: &str, t: &[char]) -> (r: bool)
    ensures
        r == (s@ == t@),
{
    let n = s.unicode_len();
    if n != t.len() {
        return false;
    }
    let mut i: usize = 0;
    while i < n
        invariant
            n == s@.len(),
            n == t@.len(),
            i <= n,
            forall|k: int| 0 <= k < i ==> s@[k] == t@[k],
        decreases n - i,
    {
        if s.get_char(i) != t[i] {
            return false;
        }
        i = i + 1;
    }
    assert(s@ =~= t@);
    true
}

/// Whether two strings hold the same characters.
pub fn str_equals(s: &str, t: &str) -> (r: bool)
    ensures
        r == (s@ == t@),
{
    let n = s.unicode_len();
    if n != t.unicode_len() {
        return false;
    }
    let mut i: usize = 0;
    while i < n
        invariant
            n == s@.len(),
            n == t@.len(),
            i <= n,
            forall|k: int| 0 <= k < i ==> s@[k] == t@[k],
        decreases n - i,
    {
        if s.get_char(i) != t.get_char(i) {
            return false;
        }
        i = i + 1;
    }
    assert(s@ =~= t@);
    true
}

} // verus!
