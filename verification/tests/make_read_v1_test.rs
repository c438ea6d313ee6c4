use std::path::PathBuf;

use filearco::file_data::{FileData, FileDatum};
use filearco::v1::FileArco;

fn get_reqchan_docs() -> Vec<String> {
    let mut v = Vec::<String>::new();

    v.push(String::from("implementors/core/clone/trait.Clone.js"));
    v.push(String::from("implementors/core/fmt/trait.Debug.js"));
    v.push(String::from("implementors/core/ops/trait.Drop.js"));
    v.push(String::from("reqchan/RequestContract.t.html"));
    v.push(String::from("reqchan/Requester.t.html"));
    v.push(String::from("reqchan/Responder.t.html"));
    v.push(String::from("reqchan/ResponseContract.t.html"));
    v.push(String::from("reqchan/TryReceiveError.t.html"));
    v.push(String::from("reqchan/TryRequestError.t.html"));
    v.push(String::from("reqchan/TryRespondError.t.html"));
    v.push(String::from("reqchan/channel.v.html"));
    v.push(String::from("reqchan/enum.TryReceiveError.html"));
    v.push(String::from("reqchan/enum.TryRequestError.html"));
    v.push(String::from("reqchan/enum.TryRespondError.html"));
    v.push(String::from("reqchan/fn.channel.html"));
    v.push(String::from("reqchan/index.html"));
    v.push(String::from("reqchan/sidebar-items.js"));
    v.push(String::from("reqchan/struct.RequestContract.html"));
    v.push(String::from("reqchan/struct.Requester.html"));
    v.push(String::from("reqchan/struct.Responder.html"));
    v.push(String::from("reqchan/struct.ResponseContract.html"));
    v.push(String::from("src/reqchan/lib.rs.html"));
    v.push(String::from("COPYRIGHT.txt"));
    v.push(String::from("FiraSans-LICENSE.txt"));
    v.push(String::from("FiraSans-Medium.woff"));
    v.push(String::from("FiraSans-Regular.woff"));
    v.push(String::from("Heuristica-Italic.woff"));
    v.push(String::from("Heuristica-LICENSE.txt"));
    v.push(String::from("LICENSE-APACHE.txt"));
    v.push(String::from("LICENSE-MIT.txt"));
    v.push(String::from("SourceCodePro-LICENSE.txt"));
    v.push(String::from("SourceCodePro-Regular.woff"));
    v.push(String::from("SourceCodePro-Semibold.woff"));
    v.push(String::from("SourceSerifPro-Bold.woff"));
    v.push(String::from("SourceSerifPro-LICENSE.txt"));
    v.push(String::from("SourceSerifPro-Regular.woff"));
    v.push(String::from("main.css"));
    v.push(String::from("main.js"));
    v.push(String::from("normalize.css"));
    v.push(String::from("rustdoc.css"));
    v.push(String::from("search-index.js"));

    v
}

/// Contents for the file at place `index`: of a length of its own, and in
/// bytes of its own.
fn contents_of(index: usize) -> Vec<u8> {
    let length = (index * 1753) % 20000;
    let mut out = Vec::with_capacity(length);
    for i in 0..length {
        out.push(((i * 7 + index * 13) % 251) as u8);
    }
    out
}

/// The files of the directory, held in memory: the listing and, in the
/// same order, the contents.
fn reqchandocs() -> (FileData, Vec<Vec<u8>>) {
    let mut data = Vec::new();
    let mut contents = Vec::new();
    for (index, name) in get_reqchan_docs().into_iter().enumerate() {
        let bytes = contents_of(index);
        data.push(FileDatum::from_contents(name, &bytes));
        contents.push(bytes);
    }
    (FileData::new(PathBuf::from("testarchives/reqchandocs"), data), contents)
}

#[test]
fn test_make_read_v1() {
    let (file_data, contents) = reqchandocs();
    let file_data_copy = file_data.clone();

    let archive_bytes = FileArco::make(file_data, &contents).unwrap().ok().unwrap();

    let archive = FileArco::new(&archive_bytes).ok().unwrap();

    let datums = file_data_copy.into_vec();

    for (datum, contents) in datums.into_iter().zip(contents.iter()) {
        let fileref = archive.get(&archive_bytes, &datum.name()).unwrap();

        assert_eq!(datum.len(), fileref.len());
        assert!(fileref.is_valid());

        assert_eq!(&contents[..], fileref.as_slice());
    }
}

#[test]
fn the_directory_is_laid_out_by_path() {
    let (file_data, _) = reqchandocs();
    let (_, table) = FileArco::prepare_with_page_size(file_data, 4096).unwrap().ok().unwrap();
    let mut names = get_reqchan_docs();
    names.sort_by(|a, b| a.as_bytes().cmp(b.as_bytes()));
    assert_eq!(table.len(), names.len());
    for k in 0..table.len() {
        assert_eq!(table.path(k), names[k]);
    }
    assert_eq!(table.path(0), "COPYRIGHT.txt");
    assert_eq!(table.path(table.len() - 1), "src/reqchan/lib.rs.html");
}
