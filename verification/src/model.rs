use vstd::prelude::*;

verus! {

/// The address from which the model file `name` of the Hugging Face repository `repo` is
/// downloaded.
pub fn model_url(repo: &str, name: &str) -> (url: String)
    ensures
        url@ == "https://huggingface.co/"@ + repo@ + "/resolve/main/"@ + name@,
{
    let mut url = String::from_str("https://huggingface.co/");
    url.append(repo);
    url.append("/resolve/main/");
    url.append(name);
    url
}

/// The name under which a model file is written while it is being downloaded.
pub fn partial_file_name(name: &str) -> (partial: String)
    ensures
        partial@ == name@ + ".part"@,
{
    let mut partial = String::from_str(name);
    partial.append(".part");
    partial
}

/// A cached model file is used as it is when it exists and is not empty; otherwise it is
/// downloaded.
pub fn cached_model_usable(exists: bool, len: u64) -> (usable: bool)
    ensures
        usable == (exists && len > 0),
{
    exists && len > 0
}

} // verus!
