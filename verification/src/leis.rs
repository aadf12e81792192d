//! Leis das listas: o que sequências de operações garantem, provado a partir
//! dos contratos públicos de cada operação.

use vstd::prelude::*;
use crate::encadeamento::{
    lema_posicao, lema_posicao_apos_inserir, lema_posicao_apos_remover, lema_posicao_unica,
};
use crate::lista_dupla::{IteradorListaDupla, ListaDupla};
use crate::lista_encadeada::{IteradorLista, ListaEncadeada};

verus! {

/// Inserir um conteúdo depois de um endereço e, em seguida, remover a célula
/// que segue esse mesmo endereço devolve a lista de antes, conteúdos e endereços.
pub proof fn lei_inserir_e_deletar_apos<T>(
    antes: ListaEncadeada<T>,
    meio: ListaEncadeada<T>,
    depois: ListaEncadeada<T>,
    e: usize,
    x: T,
)
    requires
        antes.bem_formada(),
        meio.bem_formada(),
        antes.enderecos().contains(e),
        meio@ == antes@.insert(antes.posicao(e) + 1, x),
        meio.enderecos() == antes.enderecos().insert(
            antes.posicao(e) + 1,
            meio.enderecos()[antes.posicao(e) + 1],
        ),
        !antes.enderecos().contains(meio.enderecos()[antes.posicao(e) + 1]),
        depois@ == meio@.remove(meio.posicao(e) + 1),
        depois.enderecos() == meio.enderecos().remove(meio.posicao(e) + 1),
    ensures
        depois@ == antes@,
        depois.enderecos() == antes.enderecos(),
{
    antes.lema_bem_formada();
    let k: int = antes.posicao(e);
    lema_posicao(antes.enderecos(), e);
    lema_posicao_apos_inserir(antes.enderecos(), k + 1, meio.enderecos()[k + 1], e);
    assert(meio@.remove(k + 1) =~= antes@);
    assert(meio.enderecos().remove(k + 1) =~= antes.enderecos());
}

/// Inserir depois de um endereço não desloca as outras células: todo endereço
/// que estava na lista continua nela e guarda o mesmo conteúdo.
pub proof fn lei_enderecos_estaveis_ao_inserir<T>(
    antes: ListaEncadeada<T>,
    depois: ListaEncadeada<T>,
    e: usize,
    x: T,
    f: usize,
)
    requires
        antes.bem_formada(),
        antes.enderecos().contains(e),
        antes.enderecos().contains(f),
        depois@ == antes@.insert(antes.posicao(e) + 1, x),
        depois.enderecos() == antes.enderecos().insert(
            antes.posicao(e) + 1,
            depois.enderecos()[antes.posicao(e) + 1],
        ),
        !antes.enderecos().contains(depois.enderecos()[antes.posicao(e) + 1]),
    ensures
        depois.enderecos().contains(f),
        depois@[depois.posicao(f)] == antes@[antes.posicao(f)],
{
    antes.lema_bem_formada();
    let k: int = antes.posicao(e);
    lema_posicao(antes.enderecos(), e);
    lema_posicao(antes.enderecos(), f);
    lema_posicao_apos_inserir(antes.enderecos(), k + 1, depois.enderecos()[k + 1], f);
}

/// Remover a célula que segue um endereço não desloca as outras: todo outro
/// endereço que estava na lista continua nela e guarda o mesmo conteúdo.
pub proof fn lei_enderecos_estaveis_ao_deletar_apos<T>(
    antes: ListaEncadeada<T>,
    depois: ListaEncadeada<T>,
    e: usize,
    f: usize,
)
    requires
        antes.bem_formada(),
        antes.enderecos().contains(e),
        e != antes.enderecos().last(),
        antes.enderecos().contains(f),
        f != antes.enderecos()[antes.posicao(e) + 1],
        depois@ == antes@.remove(antes.posicao(e) + 1),
        depois.enderecos() == antes.enderecos().remove(antes.posicao(e) + 1),
    ensures
        depois.enderecos().contains(f),
        depois@[depois.posicao(f)] == antes@[antes.posicao(f)],
{
    antes.lema_bem_formada();
    let k: int = antes.posicao(e);
    lema_posicao(antes.enderecos(), e);
    lema_posicao(antes.enderecos(), f);
    lema_posicao_apos_remover(antes.enderecos(), k + 1, f);
}

/// Na lista dupla, inserir um conteúdo antes de um endereço e, em seguida,
/// remover a célula nova devolve a lista de antes, conteúdos e endereços.
pub proof fn lei_inserir_antes_e_deletar<T>(
    antes: ListaDupla<T>,
    meio: ListaDupla<T>,
    depois: ListaDupla<T>,
    e: usize,
    x: T,
)
    requires
        antes.bem_formada(),
        meio.bem_formada(),
        antes.enderecos().contains(e),
        meio@ == antes@.insert(antes.posicao(e), x),
        meio.enderecos() == antes.enderecos().insert(antes.posicao(e), meio.enderecos()[antes.posicao(e)]),
        !antes.enderecos().contains(meio.enderecos()[antes.posicao(e)]),
        depois@ == meio@.remove(meio.posicao(meio.enderecos()[antes.posicao(e)])),
        depois.enderecos() == meio.enderecos().remove(meio.posicao(meio.enderecos()[antes.posicao(e)])),
    ensures
        depois@ == antes@,
        depois.enderecos() == antes.enderecos(),
{
    antes.lema_bem_formada();
    meio.lema_bem_formada();
    let k: int = antes.posicao(e);
    lema_posicao(antes.enderecos(), e);
    lema_posicao_unica(meio.enderecos(), k);
    assert(meio@.remove(k) =~= antes@);
    assert(meio.enderecos().remove(k) =~= antes.enderecos());
}

/// Na lista dupla, inserir uma cabeça nova e, em seguida, remover a cabeça
/// devolve a lista de antes, conteúdos e endereços.
pub proof fn lei_inserir_e_deletar_cabeca<T>(
    antes: ListaDupla<T>,
    meio: ListaDupla<T>,
    depois: ListaDupla<T>,
    x: T,
)
    requires
        meio@ == antes@.insert(0, x),
        meio.enderecos() == antes.enderecos().insert(0, meio.enderecos()[0]),
        depois@ == meio@.drop_first(),
        depois.enderecos() == meio.enderecos().drop_first(),
    ensures
        depois@ == antes@,
        depois.enderecos() == antes.enderecos(),
{
    assert(meio@.drop_first() =~= antes@);
    assert(meio.enderecos().drop_first() =~= antes.enderecos());
}

/// Na lista dupla, voltar da célula que segue um endereço leva de volta a
/// esse endereço e ao seu conteúdo.
pub proof fn lei_anterior_do_proximo<T>(lista: ListaDupla<T>, e: usize)
    requires
        lista.bem_formada(),
        lista.enderecos().contains(e),
        e != lista.enderecos().last(),
    ensures
        lista.enderecos()[lista.posicao(e) + 1] != lista.enderecos()[0],
        lista.enderecos()[lista.posicao(lista.enderecos()[lista.posicao(e) + 1]) - 1] == e,
        lista@[lista.posicao(lista.enderecos()[lista.posicao(e) + 1]) - 1] == lista@[lista.posicao(e)],
{
    lista.lema_bem_formada();
    let k: int = lista.posicao(e);
    lema_posicao(lista.enderecos(), e);
    lema_posicao_unica(lista.enderecos(), k + 1);
}

/// Na lista dupla, avançar da célula que precede um endereço leva de volta a
/// esse endereço e ao seu conteúdo.
pub proof fn lei_proximo_do_anterior<T>(lista: ListaDupla<T>, e: usize)
    requires
        lista.bem_formada(),
        lista.enderecos().contains(e),
        e != lista.enderecos()[0],
    ensures
        lista.enderecos()[lista.posicao(e) - 1] != lista.enderecos().last(),
        lista.enderecos()[lista.posicao(lista.enderecos()[lista.posicao(e) - 1]) + 1] == e,
        lista@[lista.posicao(lista.enderecos()[lista.posicao(e) - 1]) + 1] == lista@[lista.posicao(e)],
{
    lista.lema_bem_formada();
    let k: int = lista.posicao(e);
    lema_posicao(lista.enderecos(), e);
    lema_posicao_unica(lista.enderecos(), 0);
    lema_posicao_unica(lista.enderecos(), k - 1);
}

/// Na lista dupla, inserir antes de um endereço não desloca as outras células:
/// todo endereço que estava na lista continua nela e guarda o mesmo conteúdo.
pub proof fn lei_enderecos_estaveis_ao_inserir_antes<T>(
    antes: ListaDupla<T>,
    depois: ListaDupla<T>,
    e: usize,
    x: T,
    f: usize,
)
    requires
        antes.bem_formada(),
        antes.enderecos().contains(e),
        antes.enderecos().contains(f),
        depois@ == antes@.insert(antes.posicao(e), x),
        depois.enderecos() == antes.enderecos().insert(antes.posicao(e), depois.enderecos()[antes.posicao(e)]),
        !antes.enderecos().contains(depois.enderecos()[antes.posicao(e)]),
    ensures
        depois.enderecos().contains(f),
        depois@[depois.posicao(f)] == antes@[antes.posicao(f)],
{
    antes.lema_bem_formada();
    let k: int = antes.posicao(e);
    lema_posicao(antes.enderecos(), e);
    lema_posicao(antes.enderecos(), f);
    lema_posicao_apos_inserir(antes.enderecos(), k, depois.enderecos()[k], f);
}

/// Na lista dupla, remover uma célula não desloca as outras: todo outro
/// endereço que estava na lista continua nela e guarda o mesmo conteúdo.
pub proof fn lei_enderecos_estaveis_ao_deletar<T>(
    antes: ListaDupla<T>,
    depois: ListaDupla<T>,
    e: usize,
    f: usize,
)
    requires
        antes.bem_formada(),
        antes.enderecos().contains(e),
        antes.enderecos().contains(f),
        f != e,
        depois@ == antes@.remove(antes.posicao(e)),
        depois.enderecos() == antes.enderecos().remove(antes.posicao(e)),
    ensures
        depois.enderecos().contains(f),
        depois@[depois.posicao(f)] == antes@[antes.posicao(f)],
{
    antes.lema_bem_formada();
    lema_posicao(antes.enderecos(), e);
    lema_posicao(antes.enderecos(), f);
    lema_posicao_apos_remover(antes.enderecos(), antes.posicao(e), f);
}

/// Na lista dupla, inserir um conteúdo depois de um endereço e, em seguida,
/// remover a célula que segue esse mesmo endereço devolve a lista de antes.
pub proof fn lei_inserir_e_deletar_apos_dupla<T>(
    antes: ListaDupla<T>,
    meio: ListaDupla<T>,
    depois: ListaDupla<T>,
    e: usize,
    x: T,
)
    requires
        antes.bem_formada(),
        meio.bem_formada(),
        antes.enderecos().contains(e),
        meio@ == antes@.insert(antes.posicao(e) + 1, x),
        meio.enderecos() == antes.enderecos().insert(
            antes.posicao(e) + 1,
            meio.enderecos()[antes.posicao(e) + 1],
        ),
        !antes.enderecos().contains(meio.enderecos()[antes.posicao(e) + 1]),
        depois@ == meio@.remove(meio.posicao(e) + 1),
        depois.enderecos() == meio.enderecos().remove(meio.posicao(e) + 1),
    ensures
        depois@ == antes@,
        depois.enderecos() == antes.enderecos(),
{
    antes.lema_bem_formada();
    let k: int = antes.posicao(e);
    lema_posicao(antes.enderecos(), e);
    lema_posicao_apos_inserir(antes.enderecos(), k + 1, meio.enderecos()[k + 1], e);
    assert(meio@.remove(k + 1) =~= antes@);
    assert(meio.enderecos().remove(k + 1) =~= antes.enderecos());
}

/// O que a chamada `j` de `next` entrega num percurso de `itens`: o item `j`,
/// ou `None` depois do último.
pub open spec fn entrega<T>(itens: Seq<T>, j: int) -> Option<T> {
    if j < itens.len() {
        Some(itens[j])
    } else {
        None
    }
}

/// Um passo de iteração: com `vistos` itens já entregues, `next` entrega o
/// seguinte e conta mais um, ou entrega `None` e não conta.
pub open spec fn passo<T>(itens: Seq<T>, vistos: nat, vistos_depois: nat, r: Option<T>) -> bool {
    &&& vistos < itens.len() ==> r == Some(itens[vistos as int]) && vistos_depois == vistos + 1
    &&& vistos >= itens.len() ==> r == None::<T> && vistos_depois == vistos
}

/// Partindo de nenhum item visto, cada passo entrega o item da sua ordem, e
/// `None` depois do último.
proof fn lema_passos<T>(itens: Seq<T>, vistos: Seq<nat>, rs: Seq<Option<T>>, j: int)
    requires
        vistos.len() == rs.len() + 1,
        vistos[0] == 0,
        forall|i: int| #![trigger rs[i]] 0 <= i < rs.len() ==> passo(itens, vistos[i], vistos[i + 1], rs[i]),
        0 <= j <= rs.len(),
    ensures
        vistos[j] == (if j < itens.len() { j } else { itens.len() as int }),
        j < rs.len() ==> rs[j] == entrega(itens, j),
    decreases j,
{
    if j > 0 {
        lema_passos(itens, vistos, rs, j - 1);
        assert(passo(itens, vistos[j - 1], vistos[j], rs[j - 1]));
    }
    if j < rs.len() {
        assert(passo(itens, vistos[j], vistos[j + 1], rs[j]));
    }
}

/// Chamar `next` repetidamente num iterador novo de uma lista entrega os seus
/// conteúdos na ordem, da cabeça à ponta, e depois `None` para sempre.
/// `its[j]` é o iterador antes da chamada `j` e `rs[j]` o que ela devolveu.
pub proof fn lei_iterador_entrega_em_ordem<'a, T: Copy>(
    lista: ListaEncadeada<T>,
    its: Seq<IteradorLista<'a, T>>,
    rs: Seq<Option<T>>,
)
    requires
        its.len() == rs.len() + 1,
        its[0].itens() == lista@,
        its[0].vistos() == 0,
        forall|j: int| 0 < j <= rs.len() ==> (#[trigger] its[j]).itens() == its[j - 1].itens(),
        forall|j: int|
            0 <= j < rs.len() && its[j].vistos() < its[j].itens().len() ==> rs[j] == Some(
                its[j].itens()[its[j].vistos() as int],
            ) && (#[trigger] its[j + 1]).vistos() == its[j].vistos() + 1,
        forall|j: int|
            0 <= j < rs.len() && its[j].vistos() >= its[j].itens().len() ==> rs[j] == None::<T>
                && (#[trigger] its[j + 1]).vistos() == its[j].vistos(),
    ensures
        forall|j: int| 0 <= j < rs.len() ==> #[trigger] rs[j] == entrega(lista@, j),
{
    let vistos = Seq::new(its.len(), |j: int| its[j].vistos());
    let itens = Seq::new(its.len(), |j: int| its[j].itens());
    assert forall|j: int| 0 <= j <= rs.len() implies (#[trigger] its[j]).itens() == lista@ by {
        assert forall|i: int| 0 < i < itens.len() implies #[trigger] itens[i] == itens[i - 1] by {
            assert(its[i].itens() == its[i - 1].itens());
        }
        lema_mesmos_itens(itens, j);
    }
    assert forall|i: int| 0 <= i < rs.len() implies passo(lista@, vistos[i], vistos[i + 1], #[trigger] rs[i]) by {
        assert(its[i].itens() == lista@);
        assert(its[i + 1].vistos() == vistos[i + 1]);
    }
    assert forall|j: int| 0 <= j < rs.len() implies #[trigger] rs[j] == entrega(lista@, j) by {
        lema_passos(lista@, vistos, rs, j);
    }
}

/// Se cada passo mantém os itens percorridos, todos os passos percorrem os
/// itens do primeiro.
proof fn lema_mesmos_itens<T>(itens: Seq<Seq<T>>, j: int)
    requires
        itens.len() > 0,
        forall|i: int| 0 < i < itens.len() ==> #[trigger] itens[i] == itens[i - 1],
        0 <= j < itens.len(),
    ensures
        itens[j] == itens[0],
    decreases j,
{
    if j > 0 {
        lema_mesmos_itens(itens, j - 1);
        assert(itens[j] == itens[j - 1]);
    }
}

/// Na lista dupla, chamar `next` repetidamente num iterador novo entrega os
/// conteúdos na ordem, da cabeça à ponta, e depois `None` para sempre.
/// `its[j]` é o iterador antes da chamada `j` e `rs[j]` o que ela devolveu.
pub proof fn lei_iterador_duplo_entrega_em_ordem<'a, T: Copy>(
    lista: ListaDupla<T>,
    its: Seq<IteradorListaDupla<'a, T>>,
    rs: Seq<Option<T>>,
)
    requires
        its.len() == rs.len() + 1,
        its[0].itens() == lista@,
        its[0].vistos() == 0,
        forall|j: int| 0 < j <= rs.len() ==> (#[trigger] its[j]).itens() == its[j - 1].itens(),
        forall|j: int|
            0 <= j < rs.len() && its[j].vistos() < its[j].itens().len() ==> rs[j] == Some(
                its[j].itens()[its[j].vistos() as int],
            ) && (#[trigger] its[j + 1]).vistos() == its[j].vistos() + 1,
        forall|j: int|
            0 <= j < rs.len() && its[j].vistos() >= its[j].itens().len() ==> rs[j] == None::<T>
                && (#[trigger] its[j + 1]).vistos() == its[j].vistos(),
    ensures
        forall|j: int| 0 <= j < rs.len() ==> #[trigger] rs[j] == entrega(lista@, j),
{
    let vistos = Seq::new(its.len(), |j: int| its[j].vistos());
    let itens = Seq::new(its.len(), |j: int| its[j].itens());
    assert forall|j: int| 0 <= j <= rs.len() implies (#[trigger] its[j]).itens() == lista@ by {
        assert forall|i: int| 0 < i < itens.len() implies #[trigger] itens[i] == itens[i - 1] by {
            assert(its[i].itens() == its[i - 1].itens());
        }
        lema_mesmos_itens(itens, j);
    }
    assert forall|i: int| 0 <= i < rs.len() implies passo(lista@, vistos[i], vistos[i + 1], #[trigger] rs[i]) by {
        assert(its[i].itens() == lista@);
        assert(its[i + 1].vistos() == vistos[i + 1]);
    }
    assert forall|j: int| 0 <= j < rs.len() implies #[trigger] rs[j] == entrega(lista@, j) by {
        lema_passos(lista@, vistos, rs, j);
    }
}

} // verus!
