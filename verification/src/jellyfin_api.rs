//! What is said to a Jellyfin media server, as plain values.
//!
//! Nothing is sent from here. The client works out the requests: where they
//! go and how they are signed. Sending them is the caller's part.

use crate::error::Error;
use crate::text;
use crate::text::texts_of;
use vstd::prelude::*;
use vstd::string::StringExecFns;

verus! {

/// How a request is made.
#[derive(Debug, Copy, Clone, PartialEq, Eq)]
pub enum Method {
    Get,
    Post,
}

/// A request to the media server.
#[derive(Debug)]
pub struct Request {
    /// How the request is made.
    pub method: Method,
    /// Where it goes.
    pub url: String,
    /// The value of its `Authorization` header.
    pub authorization: String,
    /// The value of its `Accept` header.
    pub accept: String,
}

/// `url` without one slash at its end, if it has one there.
pub open spec fn without_final_slash(url: Seq<char>) -> Seq<char> {
    if url.len() > 0 && url.last() == '/' {
        url.drop_last()
    } else {
        url
    }
}

/// The value of the `Authorization` header for an API key.
pub open spec fn authorization_of(api_key: Seq<char>) -> Seq<char> {
    "MediaBrowser Token=\""@ + api_key + "\""@
}

/// The path under which a user's policy is set.
pub open spec fn policy_path_of(user_id: Seq<char>) -> Seq<char> {
    "/Users/"@ + user_id + "/Policy"@
}

/// `folders` without every folder whose text is `id`.
pub open spec fn without(folders: Seq<Seq<char>>, id: Seq<char>) -> Seq<Seq<char>>
    decreases folders.len(),
{
    if folders.len() == 0 {
        folders
    } else if folders.last() == id {
        without(folders.drop_last(), id)
    } else {
        without(folders.drop_last(), id).push(folders.last())
    }
}

/// The folders that a user sees after `id` has been toggled: a folder that
/// was among them leaves, any other joins at the end.
pub open spec fn toggled_folders(folders: Seq<Seq<char>>, id: Seq<char>) -> Seq<Seq<char>> {
    if folders.contains(id) {
        without(folders, id)
    } else {
        folders.push(id)
    }
}

/// A client of one media server.
#[derive(Debug, Clone)]
pub struct JellyfinClient {
    base_url: String,
    api_key: String,
}

impl JellyfinClient {
    /// The address of the server, without a slash at its end.
    pub closed spec fn base_url(&self) -> Seq<char> {
        self.base_url@
    }

    /// The key that signs the requests.
    pub closed spec fn api_key(&self) -> Seq<char> {
        self.api_key@
    }

    /// A client for the server at `base_url`. One slash at the end of the
    /// address is dropped, since every path begins with one.
    pub fn new(base_url: String, api_key: String) -> (client: JellyfinClient)
        ensures
            client.base_url() == without_final_slash(base_url@),
            client.api_key() == api_key@,
    {
        let mut base_url = base_url;
        if text::ends_with(base_url.as_str(), '/') {
            let _ = text::pop(&mut base_url);
        }
        JellyfinClient { base_url, api_key }
    }

    /// The request for `path` on the server, signed with the client's key
    /// and asking for JSON. A path that does not begin with a slash is
    /// invalid.
    pub fn base_request(&self, method: Method, path: &str) -> (r: Result<Request, Error>)
        ensures
            path@.len() > 0 && path@[0] == '/' ==> (r matches Ok(request) && request.method
                == method && request.url@ == self.base_url() + path@ && request.authorization@
                == authorization_of(self.api_key()) && request.accept@ == "application/json"@),
            !(path@.len() > 0 && path@[0] == '/') ==> (r matches Err(Error::InvalidPath(text))
                && text@ == "Path must start with \"/\": "@ + path@),
    {
        if !text::starts_with(path, '/') {
            return Err(Error::InvalidPath("Path must start with \"/\": ".to_owned().concat(path)));
        }
        let url = self.base_url.clone().concat(path);
        let authorization = "MediaBrowser Token=\"".to_owned().concat(
            self.api_key.as_str(),
        ).concat("\"");
        Ok(Request { method, url, authorization, accept: "application/json".to_owned() })
    }

    /// The path under which the policy of the user `user_id` is set.
    pub fn policy_path(user_id: &str) -> (path: String)
        ensures
            path@ == policy_path_of(user_id@),
    {
        "/Users/".to_owned().concat(user_id).concat("/Policy")
    }

    /// Says how setting a user's folders went: well if the server answered
    /// with success, and otherwise as an error that names the user and
    /// carries the server's answer.
    pub fn policy_outcome(success: bool, user_id: &str, answer: &str) -> (r: Result<(), Error>)
        ensures
            success ==> r is Ok,
            !success ==> (r matches Err(Error::JellyfinError(text)) && text@
                == "Failed to set media folders: User id = "@ + user_id@ + ", "@ + answer@),
    {
        if success {
            Ok(())
        } else {
            Err(
                Error::JellyfinError(
                    "Failed to set media folders: User id = ".to_owned().concat(user_id).concat(
                        ", ",
                    ).concat(answer),
                ),
            )
        }
    }
}

/// Toggles the folder `folder_id` among the folders that a user sees.
pub fn toggle_folder(folders: Vec<String>, folder_id: String) -> (toggled: Vec<String>)
    ensures
        texts_of(toggled@) == toggled_folders(texts_of(folders@), folder_id@),
{
    let mut kept: Vec<String> = Vec::new();
    let mut found = false;
    let mut i: usize = 0;
    assert(texts_of(folders@).take(0) =~= Seq::<Seq<char>>::empty());
    assert(texts_of(kept@) =~= Seq::<Seq<char>>::empty());
    while i < folders.len()
        invariant
            i <= folders@.len(),
            texts_of(kept@) == without(texts_of(folders@).take(i as int), folder_id@),
            found == texts_of(folders@).take(i as int).contains(folder_id@),
        decreases folders@.len() - i,
    {
        let ghost texts = texts_of(folders@);
        proof {
            assert(texts.take(i + 1).drop_last() =~= texts.take(i as int));
            assert(texts.take(i + 1).last() == folders@[i as int]@);
        }
        if folders[i] == folder_id {
            found = true;
            assert(texts.take(i + 1)[i as int] == folder_id@);
        } else {
            let ghost before = kept@;
            kept.push(folders[i].clone());
            assert(texts_of(kept@) =~= texts_of(before).push(folders@[i as int]@));
            proof {
                let shorter = texts.take(i as int);
                let longer = texts.take(i + 1);
                if longer.contains(folder_id@) {
                    let k = choose|k: int| 0 <= k < longer.len() && longer[k] == folder_id@;
                    assert(shorter[k] == folder_id@);
                }
                if shorter.contains(folder_id@) {
                    let k = choose|k: int| 0 <= k < shorter.len() && shorter[k] == folder_id@;
                    assert(longer[k] == folder_id@);
                }
            }
        }
        i += 1;
    }
    assert(texts_of(folders@).take(i as int) =~= texts_of(folders@));
    if found {
        kept
    } else {
        let mut all = folders;
        let ghost before = all@;
        all.push(folder_id);
        assert(texts_of(all@) =~= texts_of(before).push(folder_id@));
        all
    }
}

} // verus!
