//! What a demo backend answers.

use crate::text::same_text;
use vstd::prelude::*;
use vstd::string::StringExecFns;

verus! {

/// An answer of a demo backend. Its status is 200.
#[derive(Debug)]
pub struct DemoReply {
    pub body: String,
    /// Whether the answer declares the content type `text/plain`.
    pub is_plain_text: bool,
}

/// The body with which the backend called `name` answers a request for `path`: a greeting that
/// tells it apart from others, or `ok` to a health check.
pub open spec fn demo_body(name: Seq<char>, path: Seq<char>) -> Seq<char> {
    if path == "/health"@ {
        "ok"@
    } else {
        "hello from "@ + name + " ("@ + path + ")\n"@
    }
}

pub fn demo_reply(name: &str, path: &str) -> (reply: DemoReply)
    ensures
        reply.body@ == demo_body(name@, path@),
        reply.is_plain_text == (path@ != "/health"@),
{
    if same_text(path, "/health") {
        return DemoReply { body: "ok".to_owned(), is_plain_text: false };
    }
    let mut body: String = "hello from ".to_owned();
    body.append(name);
    body.append(" (");
    body.append(path);
    body.append(")\n");
    DemoReply { body, is_plain_text: true }
}

/// A greeting tells who greets and what was asked for: it begins with `hello from ` and the
/// backend's name, and ends with the path in brackets. A health check is answered `ok`.
pub proof fn law_greeting_names_the_backend(name: Seq<char>, path: Seq<char>)
    ensures
        path == "/health"@ ==> demo_body(name, path) == "ok"@,
        path != "/health"@ ==> {
            let body = demo_body(name, path);
            let (n, m) = (name.len() as int, path.len() as int);
            &&& body.len() == 11 + n + 2 + m + 2
            &&& body.subrange(0, 11) == "hello from "@
            &&& body.subrange(11, 11 + n) == name
            &&& body.subrange(11 + n, 13 + n) == " ("@
            &&& body.subrange(13 + n, 13 + n + m) == path
            &&& body.subrange(13 + n + m, 15 + n + m) == ")\n"@
        },
{
    reveal_strlit("hello from ");
    reveal_strlit(" (");
    reveal_strlit(")\n");
    if path != "/health"@ {
        let body = demo_body(name, path);
        let (n, m) = (name.len() as int, path.len() as int);
        assert(body.subrange(0, 11) == "hello from "@);
        assert(body.subrange(11, 11 + n) == name);
        assert(body.subrange(11 + n, 13 + n) == " ("@);
        assert(body.subrange(13 + n, 13 + n + m) == path);
        assert(body.subrange(13 + n + m, 15 + n + m) == ")\n"@);
    }
}

} // verus!
