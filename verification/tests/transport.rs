use delta_tree::transport::{service_request, Protocol, Service};

#[test]
fn request_without_a_host() {
    assert_eq!(
        service_request(Service::UploadPack, b"/repo.git", None, Protocol::V1),
        b"git-upload-pack /repo.git\0\0version=1\0".to_vec()
    );
}

#[test]
fn request_with_a_host() {
    assert_eq!(
        service_request(Service::ReceivePack, b"/repo.git", Some(("example.org", None)), Protocol::V2),
        b"git-receive-pack /repo.git\0host=example.org\0\0version=2\0".to_vec()
    );
}

#[test]
fn request_with_a_host_and_a_port() {
    assert_eq!(
        service_request(
            Service::UploadPack,
            b"/a/b",
            Some(("example.org", Some(9418))),
            Protocol::V1
        ),
        b"git-upload-pack /a/b\0host=example.org\0:9418\0version=1\0".to_vec()
    );
    assert_eq!(
        service_request(Service::UploadPack, b"", Some(("h", Some(0))), Protocol::V2),
        b"git-upload-pack \0host=h\0:0\0version=2\0".to_vec()
    );
    assert_eq!(
        service_request(Service::UploadPack, b"", Some(("h", Some(65535))), Protocol::V2),
        b"git-upload-pack \0host=h\0:65535\0version=2\0".to_vec()
    );
}

#[test]
fn names_and_numbers() {
    assert_eq!(Service::UploadPack.as_str(), "git-upload-pack");
    assert_eq!(Service::ReceivePack.as_str(), "git-receive-pack");
    assert_eq!(Protocol::V1.number(), 1);
    assert_eq!(Protocol::V2.number(), 2);
}
