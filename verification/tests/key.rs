use hashgraph::key::{Key, KeyError};

#[test]
fn generated_key_has_a_32_byte_public_key() {
    let key = Key::new_generate().unwrap();
    assert_eq!(key.get_pub().len(), 32);
    assert!(!key.bytes().is_empty());
    assert_ne!(key.get_pub(), key.bytes());
}

#[test]
fn two_generated_keys_differ() {
    let a = Key::new_generate().unwrap();
    let b = Key::new_generate().unwrap();
    assert_ne!(a.get_pub(), b.get_pub());
    assert_ne!(a.bytes(), b.bytes());
}

#[test]
fn public_key_goes_by_the_document() {
    let key = Key::new_generate().unwrap();
    let again = Key::from_document(key.bytes()).unwrap();
    assert_eq!(again.get_pub(), key.get_pub());
    assert_eq!(key.get_pub(), key.get_pub());
    // the public key stands at the end of the document that ring writes
    let document = key.bytes();
    assert_eq!(key.get_pub()[..], document[document.len() - 32..]);
}

#[test]
fn signature_goes_by_the_document_and_the_message() {
    let key = Key::new_generate().unwrap();
    let first = key.clone().sign(b"an event");
    let second = Key::from_document(key.bytes()).unwrap().sign(b"an event");
    assert_eq!(first, second);
    assert_ne!(first, key.clone().sign(b"another event"));
    let other = Key::new_generate().unwrap();
    assert_ne!(first, other.sign(b"an event"));
}

#[test]
fn signature_verifies_under_the_public_key() {
    let key = Key::new_generate().unwrap();
    let public = key.get_pub();
    let msg = b"an event".to_vec();
    let sig = key.sign(&msg);
    assert_eq!(sig.len(), 64);
    assert_ne!(sig, msg);
    assert!(Key::verify(public.clone(), sig.clone(), msg.clone()));
    assert!(!Key::verify(public.clone(), sig.clone(), b"another event".to_vec()));
    let mut forged = sig.clone();
    forged[0] ^= 1;
    assert!(!Key::verify(public.clone(), forged, msg.clone()));
    assert!(!Key::verify(vec![0; 32], sig.clone(), msg.clone()));
    assert!(!Key::verify(vec![], sig, msg));
}

#[test]
fn signature_is_made_by_the_right_key_only() {
    let a = Key::new_generate().unwrap();
    let b = Key::new_generate().unwrap();
    let public_b = b.get_pub();
    let msg = vec![1, 2, 3];
    let sig = a.sign(&msg);
    assert!(!Key::verify(public_b, sig, msg));
}

#[test]
fn clone_is_the_same_key() {
    let key = Key::new_generate().unwrap();
    let copy = key.clone();
    assert_eq!(copy.bytes(), key.bytes());
    assert_eq!(copy.get_pub(), key.get_pub());
    let public = key.get_pub();
    let sig = copy.sign(b"m");
    assert!(Key::verify(public, sig, b"m".to_vec()));
}

#[test]
fn rubbish_is_no_key() {
    assert_eq!(Key::from_document(vec![1, 2, 3]).err(), Some(KeyError::Rejected));
    assert_eq!(Key::from_document(vec![]).err(), Some(KeyError::Rejected));
    let mut document = Key::new_generate().unwrap().bytes();
    let last = document.len() - 1;
    // a public key that does not belong to the private key
    document[last] ^= 1;
    assert_eq!(Key::from_document(document).err(), Some(KeyError::Rejected));
}

#[test]
fn failed_generation_is_reported() {
    assert_eq!(
        Key::from_generated(Err(ring::error::Unspecified)).err(),
        Some(KeyError::Unspecified)
    );
}

#[test]
fn generated_document_becomes_the_key() {
    let document = Key::new_generate().unwrap().bytes();
    let key = Key::from_generated(Ok(document.clone())).unwrap();
    assert_eq!(key.bytes(), document);
    assert_eq!(key.get_pub(), Key::from_document(document).unwrap().get_pub());
    assert_eq!(
        Key::from_generated(Ok(vec![1, 2, 3])).err(),
        Some(KeyError::Rejected)
    );
}
